//! Modes layer: the distinct behaviours of a subject.
//!
//! A subject is rarely a single thing, and the mean of distinct behaviours represents none of them.
//! Here behaviour is decomposed into modes: coherent groups of perceptions, each with its own
//! centroid, label and forgetting physics. The clustering is deterministic: each perception, in
//! order of arrival, joins the leader that it resembles most, or becomes a leader.

use crate::arithmetic;
use crate::arithmetic::Arithmetic;
use crate::entropy::EntropyTrace;
use crate::entropy::Tick;
use crate::entropy::ONE;
use crate::histogram;
use crate::histogram::Histogram;
use crate::number;
use crate::number::Double;
use crate::number::Single;
use crate::number::Vector;
use crate::perception;
use crate::perception::Perception;
use crate::perception::PerceptionView;
use crate::ranking;
use crate::selection;
use crate::text;
use crate::vector;
use vstd::prelude::*;

verus! {

/// Pattern of the default cosine at which two directions are the same mode: `0.5`.
pub const DEFAULT_MODE_THETA: u32 = 0x3f00_0000;

/// Default number of modes that one distillation can yield.
pub const DEFAULT_MAX_MODES: usize = 8;

/// Pattern of `1.0`.
pub const ONE_SINGLE: u32 = 0x3f80_0000;

/// Pattern of the share by which recurrence lowers a decay rate: `0.1`.
pub const RECURRENCE_CONSOLIDATION: u64 = 0x3fb9_9999_9999_999a;

/// Clustering parameters.
#[derive(Clone, Copy, Debug, PartialEq, Eq, Structural)]
pub struct ModeConfig {
    /// Cosine at which a perception joins an existing mode.
    pub theta: Single,
    /// Largest number of modes in one cycle.
    pub max_modes: usize,
}

impl Default for ModeConfig {
    fn default() -> (r: ModeConfig)
        ensures
            r == (ModeConfig {
                theta: Single { bits: DEFAULT_MODE_THETA },
                max_modes: DEFAULT_MAX_MODES,
            }),
    {
        ModeConfig { theta: Single { bits: DEFAULT_MODE_THETA }, max_modes: DEFAULT_MAX_MODES }
    }
}

/// A mode just distilled, still without physics.
#[derive(Debug)]
pub struct ModeSeed {
    /// Mean of the embeddings of the group.
    pub centroid: Vector,
    /// Dominant label of the group.
    pub label: String,
    /// Labels of the group with their counts, the most frequent first.
    pub label_histogram: Histogram,
    /// Number of perceptions in the group.
    pub absorbed: usize,
}

/// What a seed holds.
#[verifier::ext_equal]
pub struct ModeSeedView {
    pub centroid: Seq<Single>,
    pub label: Seq<char>,
    pub label_histogram: Seq<(Seq<char>, usize)>,
    pub absorbed: usize,
}

impl View for ModeSeed {
    type V = ModeSeedView;

    open spec fn view(&self) -> ModeSeedView {
        ModeSeedView {
            centroid: self.centroid@,
            label: self.label@,
            label_histogram: histogram::entries(self.label_histogram@),
            absorbed: self.absorbed,
        }
    }
}

/// What each seed of a list holds.
pub open spec fn seeds_of(s: Seq<ModeSeed>) -> Seq<ModeSeedView> {
    Seq::new(s.len(), |i: int| s[i]@)
}

/// A consolidated behaviour of a subject, with a life of its own.
#[derive(Debug)]
pub struct Mode {
    /// Central direction, weighted by volume as the mode evolves.
    pub centroid: Vector,
    /// Direction at birth; it never changes.
    pub origin: Vector,
    /// Dominant label.
    pub label: String,
    /// Accumulated labels with their counts.
    pub label_histogram: Histogram,
    /// Number of perceptions that the mode represents.
    pub absorbed: usize,
    /// Forgetting physics of the mode.
    pub trace: EntropyTrace,
}

/// What a mode holds.
#[verifier::ext_equal]
pub struct ModeView {
    pub centroid: Seq<Single>,
    pub origin: Seq<Single>,
    pub label: Seq<char>,
    pub label_histogram: Seq<(Seq<char>, usize)>,
    pub absorbed: usize,
    pub trace: EntropyTrace,
}

impl View for Mode {
    type V = ModeView;

    open spec fn view(&self) -> ModeView {
        ModeView {
            centroid: self.centroid@,
            origin: self.origin@,
            label: self.label@,
            label_histogram: histogram::entries(self.label_histogram@),
            absorbed: self.absorbed,
            trace: self.trace,
        }
    }
}

/// What each mode of a list holds.
pub open spec fn modes_of(s: Seq<Mode>) -> Seq<ModeView> {
    Seq::new(s.len(), |i: int| s[i]@)
}

impl ModeSeedView {
    /// The mode that a seed becomes.
    pub open spec fn born<A: Arithmetic>(self, arith: A, halflife: Double, now: Tick) -> ModeView {
        ModeView {
            centroid: self.centroid,
            origin: self.centroid,
            label: self.label,
            label_histogram: self.label_histogram,
            absorbed: self.absorbed,
            trace: EntropyTrace::fresh(arith, Double { bits: ONE }, halflife, now),
        }
    }
}

impl ModeView {
    /// The histogram of the mode with that of a seed added to it.
    pub open spec fn counts_with(self, seed: ModeSeedView) -> Map<Seq<char>, nat> {
        histogram::counts_plus(histogram::counts(self.label_histogram), seed.label_histogram)
    }

    /// The mode after a seed has merged into it.
    pub open spec fn merged<A: Arithmetic>(self, arith: A, seed: ModeSeedView, now: Tick) -> ModeView {
        let labels = histogram::histogram_of(self.counts_with(seed));
        ModeView {
            centroid: vector::blended(
                arith,
                self.centroid,
                self.absorbed,
                seed.centroid,
                seed.absorbed,
            ),
            origin: self.origin,
            label: histogram::head_or(labels, self.label),
            label_histogram: labels,
            absorbed: (self.absorbed + seed.absorbed) as usize,
            trace: self.trace.touched(arith, now, Double { bits: RECURRENCE_CONSOLIDATION }),
        }
    }

    /// Whether the counts of the mode have room for those of a seed.
    pub open spec fn has_room(self, seed: ModeSeedView) -> bool {
        &&& self.absorbed + seed.absorbed <= usize::MAX
        &&& histogram::countable(self.counts_with(seed))
    }

    /// How far the mode has moved from its birth: `1 − cos(centroid, origin)`, never negative.
    pub open spec fn drifted<A: Arithmetic>(self, arith: A) -> Single {
        arithmetic::difference32(
            arith,
            Single { bits: ONE_SINGLE },
            arithmetic::similarity(arith, self.centroid, self.origin),
        ).larger(Single::nought())
    }
}

impl Clone for ModeSeed {
    fn clone(&self) -> (r: ModeSeed)
        ensures
            r@ == self@,
    {
        ModeSeed {
            centroid: number::copy_vector(&self.centroid),
            label: self.label.clone(),
            label_histogram: histogram::copy(&self.label_histogram),
            absorbed: self.absorbed,
        }
    }
}

impl ModeSeed {
    /// Consolidates the seed into a live mode, anchoring its forgetting physics.
    pub fn into_mode<A: Arithmetic>(self, arith: &A, halflife: Double, now: Tick) -> (r: Mode)
        requires
            arithmetic::lawful(*arith),
            Double::nought().below(halflife),
        ensures
            r@ == self@.born(*arith, halflife, now),
    {
        Mode {
            trace: EntropyTrace::new(arith, Double { bits: ONE }, halflife, now),
            origin: number::copy_vector(&self.centroid),
            centroid: self.centroid,
            label: self.label,
            label_histogram: self.label_histogram,
            absorbed: self.absorbed,
        }
    }
}

impl Clone for Mode {
    fn clone(&self) -> (r: Mode)
        ensures
            r@ == self@,
    {
        Mode {
            centroid: number::copy_vector(&self.centroid),
            origin: number::copy_vector(&self.origin),
            label: self.label.clone(),
            label_histogram: histogram::copy(&self.label_histogram),
            absorbed: self.absorbed,
            trace: self.trace,
        }
    }
}

impl Mode {
    /// Merges a seed that resonates with this mode: the centroid moves towards the new evidence in
    /// proportion to its volume, the histogram accumulates, and permanence is reinforced.
    pub fn merge<A: Arithmetic>(&mut self, arith: &A, seed: &ModeSeed, now: Tick)
        requires
            arithmetic::lawful(*arith),
            old(self)@.has_room(seed@),
        ensures
            final(self)@ == old(self)@.merged(*arith, seed@, now),
    {
        vector::blend(arith, &mut self.centroid, self.absorbed, &seed.centroid, seed.absorbed);
        histogram::merge_histograms(&mut self.label_histogram, &seed.label_histogram);
        let label = histogram::head(&self.label_histogram, self.label.as_str());
        self.label = label;
        self.absorbed = self.absorbed + seed.absorbed;
        self.trace.reinforce(arith, now, Double { bits: RECURRENCE_CONSOLIDATION });
    }

    /// How far the behaviour has moved since it was born: `1 − cos(centroid, origin)`, in `[0, 2]`.
    pub fn drift<A: Arithmetic>(&self, arith: &A) -> (r: Single)
        requires
            arithmetic::lawful(*arith),
        ensures
            r == self@.drifted(*arith),
    {
        let c = arithmetic::cosine(arith, &self.centroid, &self.origin);
        arithmetic::minus32(arith, Single { bits: ONE_SINGLE }, c).max(Single::zero())
    }
}

/// A leader while perceptions are being assigned: the sum of its members and their labels.
pub struct Leader {
    sum: Vector,
    labels: Vec<String>,
}

/// What a leader holds.
#[verifier::ext_equal]
pub struct LeaderView {
    pub sum: Seq<Single>,
    pub labels: Seq<Seq<char>>,
}

impl View for Leader {
    type V = LeaderView;

    closed spec fn view(&self) -> LeaderView {
        LeaderView { sum: self.sum@, labels: text::texts_of(self.labels@) }
    }
}

/// What each leader of a list holds.
pub open spec fn leaders_of(s: Seq<Leader>) -> Seq<LeaderView> {
    Seq::new(s.len(), |i: int| s[i]@)
}

/// How much an embedding resembles each leader.
pub open spec fn resemblances<A: Arithmetic>(
    arith: A,
    x: Seq<Single>,
    leaders: Seq<LeaderView>,
) -> Seq<Single> {
    Seq::new(leaders.len(), |i: int| arithmetic::similarity(arith, x, leaders[i].sum))
}

/// Whether a perception opens a group of its own: no leader reaches the threshold, and there is room
/// for one more.
pub open spec fn opens_group<A: Arithmetic>(
    arith: A,
    leaders: Seq<LeaderView>,
    x: Seq<Single>,
    cfg: ModeConfig,
) -> bool {
    let likeness = resemblances(arith, x, leaders);
    &&& leaders.len() < cfg.max_modes
    &&& match ranking::first_best(likeness) {
        Some(i) => !cfg.theta.at_most(likeness[i]),
        None => true,
    }
}

/// A leader with one more member.
pub open spec fn joined_by<A: Arithmetic>(
    arith: A,
    leader: LeaderView,
    p: PerceptionView,
) -> LeaderView {
    LeaderView {
        sum: vector::accumulated(arith, leader.sum, p.embedding),
        labels: leader.labels.push(p.label()),
    }
}

/// A leader without members.
pub open spec fn empty_leader(dim: nat) -> LeaderView {
    LeaderView { sum: vector::origin(dim), labels: Seq::empty() }
}

/// The leaders after one more perception: it joins the leader that it resembles most, or opens a
/// group of its own; one of another dimension is passed over.
pub open spec fn assigned<A: Arithmetic>(
    arith: A,
    leaders: Seq<LeaderView>,
    p: PerceptionView,
    dim: nat,
    cfg: ModeConfig,
) -> Seq<LeaderView> {
    if p.embedding.len() != dim {
        leaders
    } else if opens_group(arith, leaders, p.embedding, cfg) {
        leaders.push(joined_by(arith, empty_leader(dim), p))
    } else {
        let i = ranking::first_best(resemblances(arith, p.embedding, leaders))->0;
        leaders.update(i, joined_by(arith, leaders[i], p))
    }
}

/// The leaders after perceptions were assigned in their order.
pub open spec fn led<A: Arithmetic>(
    arith: A,
    ps: Seq<PerceptionView>,
    dim: nat,
    cfg: ModeConfig,
) -> Seq<LeaderView>
    decreases ps.len(),
{
    if ps.len() == 0 {
        Seq::empty()
    } else {
        assigned(arith, led(arith, ps.drop_last(), dim, cfg), ps.last(), dim, cfg)
    }
}

/// The seed of a group.
pub open spec fn seed_of<A: Arithmetic>(arith: A, leader: LeaderView) -> ModeSeedView {
    let labels = histogram::histogram_of(histogram::tally_of(leader.labels));
    ModeSeedView {
        centroid: vector::scaled(
            arith,
            leader.sum,
            arithmetic::quotient32(
                arith,
                Single { bits: ONE_SINGLE },
                arithmetic::single_of(arith, leader.labels.len() as u64),
            ),
        ),
        label: histogram::head_or(labels, Seq::empty()),
        label_histogram: labels,
        absorbed: leader.labels.len() as usize,
    }
}

/// The seeds of groups.
pub open spec fn seeds_from<A: Arithmetic>(arith: A, leaders: Seq<LeaderView>) -> Seq<ModeSeedView> {
    Seq::new(leaders.len(), |i: int| seed_of(arith, leaders[i]))
}

/// The modes of a list of perceptions, in order of appearance.
pub open spec fn clustered<A: Arithmetic>(
    arith: A,
    ps: Seq<PerceptionView>,
    cfg: ModeConfig,
) -> Seq<ModeSeedView> {
    if ps.len() == 0 {
        Seq::empty()
    } else {
        seeds_from(arith, led(arith, ps, ps[0].embedding.len(), cfg))
    }
}

/// The leader that an embedding resembles most, with the resemblance; the first of equals.
fn nearest<A: Arithmetic>(arith: &A, x: &Vector, leaders: &Vec<Leader>) -> (r: Option<(usize, Single)>)
    requires
        arithmetic::lawful(*arith),
    ensures
        match r {
            Some((i, c)) => {
                &&& i < leaders.len()
                &&& ranking::first_best(resemblances(*arith, x@, leaders_of(leaders@))) == Some(
                    i as int,
                )
                &&& c == resemblances(*arith, x@, leaders_of(leaders@))[i as int]
            },
            None => leaders.len() == 0,
        },
{
    let ghost likeness = resemblances(*arith, x@, leaders_of(leaders@));
    let mut best = Single::negative_infinity();
    let mut best_i: Option<usize> = None;
    let mut i: usize = 0;
    while i < leaders.len()
        invariant
            arithmetic::lawful(*arith),
            i <= leaders.len(),
            likeness == resemblances(*arith, x@, leaders_of(leaders@)),
            !best.is_nan(),
            match best_i {
                Some(k) => {
                    &&& k < i
                    &&& best == likeness[k as int]
                    &&& forall|j: int| 0 <= j < i ==> (#[trigger] likeness[j]).rank() <= best.rank()
                    &&& forall|j: int| 0 <= j < k ==> (#[trigger] likeness[j]).rank() < best.rank()
                },
                None => i == 0 && best == Single::lowest(),
            },
        decreases leaders.len() - i,
    {
        let c = arithmetic::cosine(arith, x, &leaders[i].sum);
        assert(likeness[i as int] == c);
        if best.lt(c) {
            best = c;
            best_i = Some(i);
        }
        i += 1;
    }
    match best_i {
        Some(k) => {
            proof {
                assert(ranking::is_first_best(likeness, k as int));
                ranking::first_best_unique(likeness, k as int);
            }
            Some((k, best))
        },
        None => None,
    }
}

/// Decomposes perceptions into coherent modes.
///
/// Each perception, in order, joins the leader that it resembles most if it reaches `cfg.theta`, or
/// else opens a group of its own while there are fewer than `cfg.max_modes`, or else joins the
/// nearest after all. Cosine ignores scale, so comparing with the sum of a group is comparing with
/// its centroid. Perceptions of another dimension than the first are passed over.
pub fn cluster_modes<A: Arithmetic>(
    arith: &A,
    perceptions: &Vec<&Perception>,
    cfg: ModeConfig,
) -> (r: Vec<ModeSeed>)
    requires
        arithmetic::lawful(*arith),
        perceptions.len() > 0 ==> cfg.max_modes > 0,
    ensures
        seeds_of(r@) == clustered(
            *arith,
            perception::views_of(selection::targets(perceptions@)),
            cfg,
        ),
{
    let ghost ps = perception::views_of(selection::targets(perceptions@));
    let mut seeds: Vec<ModeSeed> = Vec::new();
    if perceptions.len() == 0 {
        assert(seeds_of(seeds@) =~= clustered(*arith, ps, cfg));
        return seeds;
    }
    let dim: usize = perceptions[0].embedding.len();
    let mut leaders: Vec<Leader> = Vec::new();
    let mut i: usize = 0;
    proof {
        assert(ps.take(0) =~= Seq::empty());
        assert(leaders_of(leaders@) =~= Seq::empty());
    }
    while i < perceptions.len()
        invariant
            arithmetic::lawful(*arith),
            cfg.max_modes > 0,
            i <= perceptions.len(),
            ps == perception::views_of(selection::targets(perceptions@)),
            leaders_of(leaders@) == led(*arith, ps.take(i as int), dim as nat, cfg),
            forall|k: int| 0 <= k < leaders.len() ==> (#[trigger] leaders@[k]).sum.len() == dim,
        decreases perceptions.len() - i,
    {
        let p: &Perception = perceptions[i];
        let ghost before = leaders_of(leaders@);
        proof {
            assert(ps.take(i + 1).drop_last() =~= ps.take(i as int));
            assert(ps.take(i + 1).last() == p@);
        }
        if p.embedding.len() == dim {
            let found = nearest(arith, &p.embedding, &leaders);
            let joins: bool = match found {
                Some((_, c)) => cfg.theta.le(c) || leaders.len() >= cfg.max_modes,
                None => false,
            };
            let target: usize = match found {
                Some((k, _)) if joins => k,
                _ => {
                    leaders.push(Leader { sum: vector::zeros(dim), labels: Vec::new() });
                    proof {
                        assert(leaders_of(leaders@) =~= before.push(empty_leader(dim as nat))) by {
                            assert(leaders@[leaders.len() - 1]@ =~= empty_leader(dim as nat));
                        }
                    }
                    leaders.len() - 1
                },
            };
            let ghost grown = leaders_of(leaders@);
            let label = p.representative_text();
            let leader = &mut leaders[target];
            vector::accumulate(arith, &mut leader.sum, &p.embedding);
            leader.labels.push(label);
            proof {
                let after = leaders_of(leaders@);
                assert(after[target as int] =~= joined_by(*arith, grown[target as int], p@)) by {
                    assert(after[target as int].labels =~= grown[target as int].labels.push(
                        p@.label(),
                    ));
                }
                assert(after =~= grown.update(
                    target as int,
                    joined_by(*arith, grown[target as int], p@),
                ));
                assert(after =~= assigned(*arith, before, p@, dim as nat, cfg));
            }
        }
        i += 1;
    }
    proof {
        assert(ps.take(i as int) =~= ps);
    }
    let ghost all = leaders_of(leaders@);
    let mut k: usize = 0;
    while k < leaders.len()
        invariant
            arithmetic::lawful(*arith),
            k <= leaders.len(),
            all == leaders_of(leaders@),
            seeds.len() == k,
            forall|j: int| 0 <= j < k ==> (#[trigger] seeds@[j])@ == seed_of(*arith, all[j]),
        decreases leaders.len() - k,
    {
        let count: usize = leaders[k].labels.len();
        let inverse = arithmetic::over32(
            arith,
            Single { bits: ONE_SINGLE },
            arithmetic::single_from(arith, count as u64),
        );
        let centroid = vector::scale(arith, &leaders[k].sum, inverse);
        let label_histogram = histogram::tally(&leaders[k].labels);
        let label = histogram::head(&label_histogram, "");
        proof {
            reveal_strlit("");
            assert(""@ =~= Seq::<char>::empty());
            assert(all[k as int] == leaders@[k as int]@);
        }
        seeds.push(ModeSeed { centroid, label, label_histogram, absorbed: count });
        k += 1;
    }
    assert(seeds_of(seeds@) =~= clustered(*arith, ps, cfg));
    seeds
}

/// The number of members of all groups.
pub open spec fn membership(leaders: Seq<LeaderView>) -> nat
    decreases leaders.len(),
{
    if leaders.len() == 0 {
        0
    } else {
        membership(leaders.drop_last()) + leaders.last().labels.len()
    }
}

/// The number of perceptions that seeds absorbed.
pub open spec fn absorbed_by(seeds: Seq<ModeSeedView>) -> nat
    decreases seeds.len(),
{
    if seeds.len() == 0 {
        0
    } else {
        absorbed_by(seeds.drop_last()) + seeds.last().absorbed as nat
    }
}

/// The number of perceptions of a given dimension.
pub open spec fn of_dimension(ps: Seq<PerceptionView>, dim: nat) -> nat
    decreases ps.len(),
{
    if ps.len() == 0 {
        0
    } else {
        of_dimension(ps.drop_last(), dim) + (if ps.last().embedding.len() == dim {
            1nat
        } else {
            0nat
        })
    }
}

proof fn membership_update(leaders: Seq<LeaderView>, i: int, leader: LeaderView)
    requires
        0 <= i < leaders.len(),
    ensures
        membership(leaders.update(i, leader)) == membership(leaders) + leader.labels.len()
            - leaders[i].labels.len(),
    decreases leaders.len(),
{
    if i == leaders.len() - 1 {
        assert(leaders.update(i, leader).drop_last() =~= leaders.drop_last());
    } else {
        membership_update(leaders.drop_last(), i, leader);
        assert(leaders.update(i, leader).drop_last() =~= leaders.drop_last().update(i, leader));
    }
}

proof fn assignment_accounts<A: Arithmetic>(
    arith: A,
    leaders: Seq<LeaderView>,
    p: PerceptionView,
    dim: nat,
    cfg: ModeConfig,
)
    requires
        cfg.max_modes > 0,
        leaders.len() <= cfg.max_modes,
        forall|k: int| 0 <= k < leaders.len() ==> (#[trigger] leaders[k]).labels.len() > 0,
    ensures
        membership(assigned(arith, leaders, p, dim, cfg)) == membership(leaders) + (if p.embedding.len()
            == dim {
            1nat
        } else {
            0nat
        }),
        assigned(arith, leaders, p, dim, cfg).len() <= cfg.max_modes,
        forall|k: int|
            0 <= k < assigned(arith, leaders, p, dim, cfg).len() ==> (#[trigger] assigned(
                arith,
                leaders,
                p,
                dim,
                cfg,
            )[k]).labels.len() > 0,
{
    if p.embedding.len() == dim {
        if opens_group(arith, leaders, p.embedding, cfg) {
            assert(leaders.push(joined_by(arith, empty_leader(dim), p)).drop_last() =~= leaders);
        } else {
            let likeness = resemblances(arith, p.embedding, leaders);
            ranking::first_best_exists(likeness);
            let i = ranking::first_best(likeness)->0;
            membership_update(leaders, i, joined_by(arith, leaders[i], p));
        }
    }
}

proof fn leading_accounts<A: Arithmetic>(
    arith: A,
    ps: Seq<PerceptionView>,
    dim: nat,
    cfg: ModeConfig,
)
    requires
        cfg.max_modes > 0,
    ensures
        membership(led(arith, ps, dim, cfg)) == of_dimension(ps, dim),
        led(arith, ps, dim, cfg).len() <= cfg.max_modes,
        forall|k: int|
            0 <= k < led(arith, ps, dim, cfg).len() ==> (#[trigger] led(
                arith,
                ps,
                dim,
                cfg,
            )[k]).labels.len() > 0,
    decreases ps.len(),
{
    if ps.len() > 0 {
        leading_accounts(arith, ps.drop_last(), dim, cfg);
        assignment_accounts(arith, led(arith, ps.drop_last(), dim, cfg), ps.last(), dim, cfg);
    }
}

/// No more perceptions have a dimension than there are.
pub proof fn dimension_bounded(ps: Seq<PerceptionView>, dim: nat)
    ensures
        of_dimension(ps, dim) <= ps.len(),
    decreases ps.len(),
{
    if ps.len() > 0 {
        dimension_bounded(ps.drop_last(), dim);
    }
}

proof fn membership_of_each(leaders: Seq<LeaderView>, k: int)
    requires
        0 <= k < leaders.len(),
    ensures
        leaders[k].labels.len() <= membership(leaders),
    decreases leaders.len(),
{
    if k < leaders.len() - 1 {
        membership_of_each(leaders.drop_last(), k);
    }
}

proof fn seeds_absorb_members<A: Arithmetic>(arith: A, leaders: Seq<LeaderView>)
    requires
        membership(leaders) <= usize::MAX,
    ensures
        absorbed_by(seeds_from(arith, leaders)) == membership(leaders),
    decreases leaders.len(),
{
    if leaders.len() > 0 {
        seeds_absorb_members(arith, leaders.drop_last());
        assert(seeds_from(arith, leaders).drop_last() =~= seeds_from(arith, leaders.drop_last()));
        membership_of_each(leaders, leaders.len() - 1);
    }
}

/// The modes of a cycle account for every perception of its dimension, each exactly once; there are
/// no more of them than allowed, and none is empty.
pub proof fn modes_account_for_perceptions<A: Arithmetic>(
    arith: A,
    ps: Seq<PerceptionView>,
    cfg: ModeConfig,
)
    requires
        0 < ps.len() <= usize::MAX,
        cfg.max_modes > 0,
    ensures
        absorbed_by(clustered(arith, ps, cfg)) == of_dimension(ps, ps[0].embedding.len()),
        clustered(arith, ps, cfg).len() <= cfg.max_modes,
        forall|k: int|
            0 <= k < clustered(arith, ps, cfg).len() ==> 0 < (#[trigger] clustered(
                arith,
                ps,
                cfg,
            )[k]).absorbed <= ps.len(),
{
    let dim = ps[0].embedding.len();
    let leaders = led(arith, ps, dim, cfg);
    leading_accounts(arith, ps, dim, cfg);
    dimension_bounded(ps, dim);
    seeds_absorb_members(arith, leaders);
    assert forall|k: int| 0 <= k < clustered(arith, ps, cfg).len() implies 0 < (
    #[trigger] clustered(arith, ps, cfg)[k]).absorbed <= ps.len() by {
        membership_of_each(leaders, k);
    }
}

/// The labels of the members of one group of a cycle.
pub open spec fn group_labels<A: Arithmetic>(
    arith: A,
    ps: Seq<PerceptionView>,
    cfg: ModeConfig,
    k: int,
) -> Seq<Seq<char>> {
    led(arith, ps, ps[0].embedding.len(), cfg)[k].labels
}

/// Each mode of a cycle carries the histogram of the labels of its members, and counts them.
pub proof fn seeds_are_tallies<A: Arithmetic>(arith: A, ps: Seq<PerceptionView>, cfg: ModeConfig)
    requires
        0 < ps.len() <= usize::MAX,
        cfg.max_modes > 0,
    ensures
        forall|k: int|
            0 <= k < clustered(arith, ps, cfg).len() ==> (#[trigger] clustered(
                arith,
                ps,
                cfg,
            )[k]).label_histogram == histogram::histogram_of(
                histogram::tally_of(group_labels(arith, ps, cfg, k)),
            ) && clustered(arith, ps, cfg)[k].absorbed == group_labels(arith, ps, cfg, k).len(),
{
    let dim = ps[0].embedding.len();
    leading_accounts(arith, ps, dim, cfg);
    dimension_bounded(ps, dim);
    assert forall|k: int| 0 <= k < clustered(arith, ps, cfg).len() implies (#[trigger] clustered(
        arith,
        ps,
        cfg,
    )[k]).label_histogram == histogram::histogram_of(
        histogram::tally_of(group_labels(arith, ps, cfg, k)),
    ) && clustered(arith, ps, cfg)[k].absorbed == group_labels(arith, ps, cfg, k).len() by {
        membership_of_each(led(arith, ps, dim, cfg), k);
    }
}

/// A mode keeps its identity: whatever merges into it, its birth direction stays, its volume grows
/// by what merged, and right after birth its centroid is its origin.
pub proof fn merging_keeps_the_origin<A: Arithmetic>(
    arith: A,
    mode: ModeView,
    seed: ModeSeedView,
    halflife: Double,
    now: Tick,
)
    requires
        mode.has_room(seed),
    ensures
        mode.merged(arith, seed, now).origin == mode.origin,
        mode.merged(arith, seed, now).absorbed == mode.absorbed + seed.absorbed,
        mode.merged(arith, seed, now).trace.last_touch == now,
        seed.born(arith, halflife, now).origin == seed.born(arith, halflife, now).centroid,
{
}

/// A perception joins the group that it resembles most, the first of equals, where it resembles it by
/// the threshold or more, or where there may be no more groups; otherwise it opens a group of its own,
/// behind the others. No other group changes, and one of another dimension changes none.
pub proof fn perceptions_join_their_nearest_group<A: Arithmetic>(
    arith: A,
    leaders: Seq<LeaderView>,
    p: PerceptionView,
    dim: nat,
    cfg: ModeConfig,
)
    requires
        arithmetic::lawful(arith),
        cfg.max_modes > 0,
    ensures
        ({
            let t = assigned(arith, leaders, p, dim, cfg);
            let x = p.embedding;
            let stranger = forall|j: int|
                0 <= j < leaders.len() ==> !cfg.theta.at_most(
                    arithmetic::similarity(arith, x, (#[trigger] leaders[j]).sum),
                );
            if x.len() != dim {
                t == leaders
            } else if leaders.len() < cfg.max_modes && stranger {
                &&& t.len() == leaders.len() + 1
                &&& forall|j: int| 0 <= j < leaders.len() ==> #[trigger] t[j] == leaders[j]
                &&& t.last().labels == seq![p.label()]
                &&& t.last().sum.len() == x.len()
                &&& forall|k: int|
                    0 <= k < x.len() ==> #[trigger] t.last().sum[k] == arithmetic::sum32(
                        arith,
                        Single { bits: 0 },
                        x[k],
                    )
            } else {
                exists|i: int|
                    {
                        let best = arithmetic::similarity(arith, x, leaders[i].sum);
                        &&& 0 <= i < leaders.len()
                        &&& forall|j: int|
                            0 <= j < leaders.len() ==> arithmetic::similarity(
                                arith,
                                x,
                                (#[trigger] leaders[j]).sum,
                            ).at_most(best)
                        &&& forall|j: int|
                            0 <= j < i ==> arithmetic::similarity(
                                arith,
                                x,
                                (#[trigger] leaders[j]).sum,
                            ).below(best)
                        &&& t.len() == leaders.len()
                        &&& forall|j: int|
                            0 <= j < leaders.len() && j != i ==> #[trigger] t[j] == leaders[j]
                        &&& (#[trigger] t[i]).labels == leaders[i].labels.push(p.label())
                        &&& t[i].sum.len() == leaders[i].sum.len()
                        &&& forall|k: int|
                            0 <= k < leaders[i].sum.len() ==> #[trigger] t[i].sum[k]
                                == arithmetic::sum32(arith, leaders[i].sum[k], x[k])
                    }
            }
        }),
{
    let t = assigned(arith, leaders, p, dim, cfg);
    let x = p.embedding;
    let likeness = resemblances(arith, x, leaders);
    assert forall|j: int| 0 <= j < likeness.len() implies !(#[trigger] likeness[j]).is_nan() by {
        arithmetic::cosine_is_number(arith, x, leaders[j].sum);
    }
    if x.len() == dim {
        let stranger = forall|j: int|
            0 <= j < leaders.len() ==> !cfg.theta.at_most(
                arithmetic::similarity(arith, x, (#[trigger] leaders[j]).sum),
            );
        if leaders.len() > 0 {
            ranking::first_best_exists(likeness);
            let i = ranking::first_best(likeness)->0;
            let best = arithmetic::similarity(arith, x, leaders[i].sum);
            assert(likeness[i] == best);
            assert forall|j: int| 0 <= j < leaders.len() implies arithmetic::similarity(
                arith,
                x,
                (#[trigger] leaders[j]).sum,
            ).at_most(best) by {
                assert(likeness[j].rank() <= likeness[i].rank());
            }
            assert forall|j: int| 0 <= j < i implies arithmetic::similarity(
                arith,
                x,
                (#[trigger] leaders[j]).sum,
            ).below(best) by {
                assert(likeness[j].rank() < likeness[i].rank());
            }
            if !cfg.theta.at_most(best) {
                assert forall|j: int| 0 <= j < leaders.len() implies !cfg.theta.at_most(
                    arithmetic::similarity(arith, x, (#[trigger] leaders[j]).sum),
                ) by {
                    assert(likeness[j].rank() <= likeness[i].rank());
                }
            }
            assert(stranger == !cfg.theta.at_most(best));
            if !(leaders.len() < cfg.max_modes && stranger) {
                assert(t[i].labels == leaders[i].labels.push(p.label()));
            }
        }
        if leaders.len() < cfg.max_modes && stranger {
            assert(t.last().labels =~= seq![p.label()]);
        }
    }
}

/// Perceptions are assigned one after the other, in their order, and each group gives one mode, in the
/// order in which the groups came up.
pub proof fn perceptions_are_assigned_in_their_order<A: Arithmetic>(
    arith: A,
    ps: Seq<PerceptionView>,
    p: PerceptionView,
    dim: nat,
    cfg: ModeConfig,
)
    ensures
        led(arith, Seq::empty(), dim, cfg).len() == 0,
        led(arith, ps.push(p), dim, cfg) == assigned(arith, led(arith, ps, dim, cfg), p, dim, cfg),
        clustered(arith, Seq::empty(), cfg).len() == 0,
        ps.len() > 0 ==> clustered(arith, ps, cfg).len() == led(
            arith,
            ps,
            ps[0].embedding.len(),
            cfg,
        ).len(),
{
    assert(ps.push(p).drop_last() =~= ps);
}

/// The mode of a group: its centroid is the sum of the members over their number, component by
/// component, it counts its members, and its label is the one that most of them carry.
pub proof fn seeds_are_means_of_their_groups<A: Arithmetic>(
    arith: A,
    ps: Seq<PerceptionView>,
    cfg: ModeConfig,
    g: int,
    k: int,
    n: Single,
    share: Single,
    r: Single,
    label: Seq<char>,
)
    requires
        arithmetic::lawful(arith),
        0 < ps.len() <= usize::MAX,
        cfg.max_modes > 0,
        0 <= g < clustered(arith, ps, cfg).len(),
        ({
            let group = led(arith, ps, ps[0].embedding.len(), cfg)[g];
            &&& 0 <= k < group.sum.len()
            &&& call_ensures(A::count32, (&arith, group.labels.len() as u64), n)
            &&& call_ensures(A::div32, (&arith, Single { bits: 0x3f80_0000 }, n), share)
            &&& call_ensures(A::mul32, (&arith, group.sum[k], share), r)
        }),
    ensures
        ({
            let group = led(arith, ps, ps[0].embedding.len(), cfg)[g];
            let seed = clustered(arith, ps, cfg)[g];
            &&& seed.centroid.len() == group.sum.len()
            &&& seed.centroid[k] == r
            &&& seed.absorbed == group.labels.len()
            &&& seed.absorbed > 0
            &&& group.labels.contains(seed.label)
            &&& histogram::occurrences(group.labels, label) <= histogram::occurrences(
                group.labels,
                seed.label,
            )
            &&& group.labels.contains(label) && label != seed.label && histogram::occurrences(
                group.labels,
                label,
            ) == histogram::occurrences(group.labels, seed.label) ==> text::before(
                seed.label,
                label,
            )
        }),
{
    reveal(arithmetic::lawful);
    let dim = ps[0].embedding.len();
    let group = led(arith, ps, dim, cfg)[g];
    leading_accounts(arith, ps, dim, cfg);
    dimension_bounded(ps, dim);
    membership_of_each(led(arith, ps, dim, cfg), g);
    histogram::the_head_dominates(group.labels, Seq::empty(), label);
}

/// To merge is to add up: each label counts in the merged mode what it counted in the mode and in the
/// seed together, the mode is named after the label that then counts most, and its centroid is the mean
/// of both, weighted by their volumes. The mode is touched as recurrence touches it.
pub proof fn merging_adds_up<A: Arithmetic>(
    arith: A,
    mode: ModeView,
    seed: ModeSeedView,
    now: Tick,
    label: Seq<char>,
)
    requires
        mode.has_room(seed),
        histogram::distinct(seed.label_histogram),
    ensures
        ({
            let m = mode.merged(arith, seed, now);
            let counted = |l: Seq<char>|
                histogram::count_of(histogram::counts(m.label_histogram), l);
            &&& counted(label) == histogram::count_of(
                histogram::counts(mode.label_histogram),
                label,
            ) + histogram::count_of(histogram::counts(seed.label_histogram), label)
            &&& counted(label) <= counted(m.label)
            &&& m.label_histogram.len() == 0 ==> m.label == mode.label
            &&& m.centroid == vector::blended(
                arith,
                mode.centroid,
                mode.absorbed,
                seed.centroid,
                seed.absorbed,
            )
            &&& m.absorbed == mode.absorbed + seed.absorbed
            &&& m.trace == mode.trace.touched(arith, now, Double { bits: 0x3fb9_9999_9999_999a })
        }),
{
    let had = histogram::counts(mode.label_histogram);
    let sum = mode.counts_with(seed);
    let h = histogram::histogram_of(sum);
    let m = mode.merged(arith, seed, now);
    histogram::counts_finite(mode.label_histogram);
    histogram::counts_plus_finite(had, seed.label_histogram);
    histogram::histogram_is_faithful(sum);
    histogram::histograms_put_the_frequent_first(sum);
    histogram::merging_adds_counts(had, seed.label_histogram, label);
    if h.len() > 0 {
        assert(m.label == h[0].0);
        assert(sum.contains_key(h[0].0) && sum[h[0].0] == h[0].1);
        if sum.contains_key(label) {
            let i = choose|i: int| 0 <= i < h.len() && (#[trigger] h[i]).0 == label;
            assert(h[0].1 >= h[i].1);
            assert(sum[h[i].0] == h[i].1);
        }
    } else {
        if sum.contains_key(label) {
            let i = choose|i: int| 0 <= i < h.len() && (#[trigger] h[i]).0 == label;
            assert(false);
        }
    }
}

/// How far a mode has drifted: one less its cosine to where it was born, as the arithmetic answers, and
/// never negative.
pub proof fn drift_is_put_together<A: Arithmetic>(
    arith: A,
    mode: ModeView,
    cosine: Single,
    r: Single,
)
    requires
        arithmetic::lawful(arith),
        arithmetic::resembles(arith, mode.centroid, mode.origin, cosine),
        call_ensures(A::sub32, (&arith, Single { bits: 0x3f80_0000 }, cosine), r),
    ensures
        mode.drifted(arith) == if r.is_nan() || r.below(Single::nought()) {
            Single::nought()
        } else {
            r
        },
        Single::nought().at_most(mode.drifted(arith)),
{
    reveal(arithmetic::lawful);
}

/// A mode that still points where it was born has not drifted, and the less it resembles its birth the
/// further it has.
pub proof fn drift_grows_with_distance<A: Arithmetic>(arith: A, near: ModeView, far: ModeView)
    requires
        arithmetic::orderly(arith),
        arithmetic::similarity(arith, far.centroid, far.origin).at_most(
            arithmetic::similarity(arith, near.centroid, near.origin),
        ),
    ensures
        near.drifted(arith).at_most(far.drifted(arith)),
        arithmetic::similarity(arith, near.centroid, near.origin).bits == 0x3f80_0000
            ==> near.drifted(arith).same(Single::nought()),
{
    let one = Single { bits: ONE_SINGLE };
    assert(one.finite());
}

/// What a mode or a seed holds is what its fields hold.
pub proof fn modes_hold_their_fields(m: Mode, s: ModeSeed)
    ensures
        m@.centroid == m.centroid@,
        m@.origin == m.origin@,
        m@.label == m.label@,
        m@.absorbed == m.absorbed,
        m@.trace == m.trace,
        m@.label_histogram.len() == m.label_histogram@.len(),
        forall|i: int|
            0 <= i < m.label_histogram@.len() ==> (#[trigger] m@.label_histogram[i]).0
                == m.label_histogram@[i].0@ && m@.label_histogram[i].1 == m.label_histogram@[i].1,
        s@.centroid == s.centroid@,
        s@.label == s.label@,
        s@.absorbed == s.absorbed,
        s@.label_histogram == histogram::entries(s.label_histogram@),
{
}

} // verus!
