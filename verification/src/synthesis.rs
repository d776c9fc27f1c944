//! Synthesis layer: the dream, or semantic compression (`DISTILL`).
//!
//! Perceptions collapse into their centroid, and each is measured by its cosine to it:
//!
//! - close to the centroid: redundant, its vote already lives in the centroid;
//! - far from the centroid: novelty, retained as an anomaly.

use crate::arithmetic;
use crate::arithmetic::Arithmetic;
use crate::histogram;
use crate::histogram::Histogram;
use crate::modes;
use crate::modes::ModeConfig;
use crate::modes::ModeSeed;
use crate::modes::ModeSeedView;
use crate::number;
use crate::number::Single;
use crate::number::Vector;
use crate::perception;
use crate::perception::Perception;
use crate::perception::PerceptionView;
use crate::selection;
use crate::text;
use crate::vector;
use vstd::prelude::*;

verus! {

/// Pattern of the default cosine from which a perception is redundant: `0.92`.
pub const DEFAULT_THETA_REDUNDANCY: u32 = 0x3f6b_851f;

/// Pattern of the default cosine up to which a perception is an anomaly: `0.30`.
pub const DEFAULT_THETA_ANOMALY: u32 = 0x3e99_999a;

/// What the dream yields: many perceptions in one vector.
#[derive(Debug)]
pub struct IntentionVector {
    pub subject: String,
    /// The central direction of the behaviour.
    pub centroid: Vector,
    /// Retained anomalous embeddings.
    pub anomalies: Vec<Vector>,
    /// The most frequent label: what dominates.
    pub core_label: String,
    /// Labels of the anomalies, one for each.
    pub anomaly_labels: Vec<String>,
    /// Number of perceptions that collapsed into this vector.
    pub absorbed: usize,
    /// Number of perceptions that were redundant.
    pub redundant: usize,
    /// Labels of the cycle with their counts, the most frequent first.
    pub label_histogram: Histogram,
    /// The behaviours of the cycle, kept apart.
    pub modes: Vec<ModeSeed>,
}

/// What an intention vector holds.
#[verifier::ext_equal]
pub struct IntentionView {
    pub subject: Seq<char>,
    pub centroid: Seq<Single>,
    pub anomalies: Seq<Seq<Single>>,
    pub core_label: Seq<char>,
    pub anomaly_labels: Seq<Seq<char>>,
    pub absorbed: usize,
    pub redundant: usize,
    pub label_histogram: Seq<(Seq<char>, usize)>,
    pub modes: Seq<ModeSeedView>,
}

impl View for IntentionVector {
    type V = IntentionView;

    open spec fn view(&self) -> IntentionView {
        IntentionView {
            subject: self.subject@,
            centroid: self.centroid@,
            anomalies: number::vectors_of(self.anomalies@),
            core_label: self.core_label@,
            anomaly_labels: text::texts_of(self.anomaly_labels@),
            absorbed: self.absorbed,
            redundant: self.redundant,
            label_histogram: histogram::entries(self.label_histogram@),
            modes: modes::seeds_of(self.modes@),
        }
    }
}

/// Parameters of `DISTILL`.
#[derive(Clone, Copy, Debug, PartialEq, Eq, Structural)]
pub struct DistillConfig {
    pub theta_redundancy: Single,
    pub theta_anomaly: Single,
    pub modes: ModeConfig,
}

impl Default for DistillConfig {
    fn default() -> (r: DistillConfig)
        ensures
            r == (DistillConfig {
                theta_redundancy: Single { bits: DEFAULT_THETA_REDUNDANCY },
                theta_anomaly: Single { bits: DEFAULT_THETA_ANOMALY },
                modes: ModeConfig {
                    theta: Single { bits: modes::DEFAULT_MODE_THETA },
                    max_modes: modes::DEFAULT_MAX_MODES,
                },
            }),
    {
        DistillConfig {
            theta_redundancy: Single { bits: DEFAULT_THETA_REDUNDANCY },
            theta_anomaly: Single { bits: DEFAULT_THETA_ANOMALY },
            modes: ModeConfig::default(),
        }
    }
}

/// The perceptions that are close to a centroid.
pub open spec fn redundant_to<A: Arithmetic>(
    arith: A,
    c: Seq<Single>,
    cfg: DistillConfig,
) -> spec_fn(PerceptionView) -> bool {
    |p: PerceptionView|
        cfg.theta_redundancy.at_most(arithmetic::similarity(arith, p.embedding, c))
}

/// The perceptions that are far from a centroid.
pub open spec fn anomalous_to<A: Arithmetic>(
    arith: A,
    c: Seq<Single>,
    cfg: DistillConfig,
) -> spec_fn(PerceptionView) -> bool {
    |p: PerceptionView|
        !cfg.theta_redundancy.at_most(arithmetic::similarity(arith, p.embedding, c))
            && arithmetic::similarity(arith, p.embedding, c).at_most(cfg.theta_anomaly)
}

/// The intention vector of perceptions with a given centroid.
pub open spec fn intention<A: Arithmetic>(
    arith: A,
    subject: Seq<char>,
    ps: Seq<PerceptionView>,
    c: Seq<Single>,
    cfg: DistillConfig,
) -> IntentionView {
    let novel = ps.filter(anomalous_to(arith, c, cfg));
    let labels = histogram::histogram_of(histogram::tally_of(perception::labels_of(ps)));
    IntentionView {
        subject,
        centroid: c,
        anomalies: perception::embeddings_of(novel),
        core_label: histogram::head_or(labels, Seq::empty()),
        anomaly_labels: perception::labels_of(novel),
        absorbed: ps.len() as usize,
        redundant: ps.filter(redundant_to(arith, c, cfg)).len() as usize,
        label_histogram: labels,
        modes: modes::clustered(arith, ps, cfg.modes),
    }
}

/// What perceptions collapse into: nothing where there are none or their dimensions differ.
pub open spec fn distilled<A: Arithmetic>(
    arith: A,
    subject: Seq<char>,
    ps: Seq<PerceptionView>,
    cfg: DistillConfig,
) -> Option<IntentionView> {
    match vector::centroid_of(arith, perception::embeddings_of(ps)) {
        Some(c) => Some(intention(arith, subject, ps, c, cfg)),
        None => None,
    }
}

/// `DISTILL`: collapses perceptions into an intention vector.
///
/// Returns `None` if there are no perceptions or their dimensions differ.
pub fn distill<A: Arithmetic>(
    arith: &A,
    subject: &str,
    perceptions: &Vec<&Perception>,
    cfg: DistillConfig,
) -> (r: Option<IntentionVector>)
    requires
        arithmetic::lawful(*arith),
        perceptions.len() > 0 && vector::uniform(
            perception::embeddings_of(perception::views_of(selection::targets(perceptions@))),
        ) ==> cfg.modes.max_modes > 0,
    ensures
        match r {
            Some(iv) => distilled(
                *arith,
                subject@,
                perception::views_of(selection::targets(perceptions@)),
                cfg,
            ) == Some(iv@),
            None => distilled(
                *arith,
                subject@,
                perception::views_of(selection::targets(perceptions@)),
                cfg,
            ) is None,
        },
{
    let ghost ps = perception::views_of(selection::targets(perceptions@));
    let mut rows: Vec<Vector> = Vec::new();
    let mut labels: Vec<String> = Vec::new();
    let mut i: usize = 0;
    while i < perceptions.len()
        invariant
            i <= perceptions.len(),
            ps == perception::views_of(selection::targets(perceptions@)),
            rows.len() == i,
            labels.len() == i,
            forall|k: int| 0 <= k < i ==> (#[trigger] rows@[k])@ == ps[k].embedding,
            forall|k: int| 0 <= k < i ==> (#[trigger] labels@[k])@ == ps[k].label(),
        decreases perceptions.len() - i,
    {
        rows.push(number::copy_vector(&perceptions[i].embedding));
        labels.push(perceptions[i].representative_text());
        i += 1;
    }
    proof {
        assert(number::vectors_of(rows@) =~= perception::embeddings_of(ps));
        assert(text::texts_of(labels@) =~= perception::labels_of(ps));
    }
    let c = match vector::centroid(arith, &rows) {
        Some(c) => c,
        None => {
            return None;
        },
    };

    let ghost novel = anomalous_to(*arith, c@, cfg);
    let ghost close = redundant_to(*arith, c@, cfg);
    let mut anomalies: Vec<Vector> = Vec::new();
    let mut anomaly_labels: Vec<String> = Vec::new();
    let mut redundant: usize = 0;
    i = 0;
    proof {
        reveal(Seq::filter);
        assert(ps.take(0) =~= Seq::empty());
        assert(number::vectors_of(anomalies@) =~= perception::embeddings_of(
            ps.take(0).filter(novel),
        ));
        assert(text::texts_of(anomaly_labels@) =~= perception::labels_of(ps.take(0).filter(novel)));
    }
    while i < perceptions.len()
        invariant
            arithmetic::lawful(*arith),
            i <= perceptions.len(),
            ps == perception::views_of(selection::targets(perceptions@)),
            labels.len() == perceptions.len(),
            text::texts_of(labels@) == perception::labels_of(ps),
            novel == anomalous_to(*arith, c@, cfg),
            close == redundant_to(*arith, c@, cfg),
            number::vectors_of(anomalies@) == perception::embeddings_of(
                ps.take(i as int).filter(novel),
            ),
            text::texts_of(anomaly_labels@) == perception::labels_of(
                ps.take(i as int).filter(novel),
            ),
            redundant == ps.take(i as int).filter(close).len(),
            redundant <= i,
        decreases perceptions.len() - i,
    {
        let p: &Perception = perceptions[i];
        let ghost had = ps.take(i as int).filter(novel);
        proof {
            reveal(Seq::filter);
            assert(ps.take(i + 1).drop_last() =~= ps.take(i as int));
            assert(ps.take(i + 1).last() == p@);
            assert(labels@[i as int]@ == text::texts_of(labels@)[i as int]);
        }
        let sim = arithmetic::cosine(arith, &p.embedding, &c);
        if cfg.theta_redundancy.le(sim) {
            redundant += 1;
        } else if sim.le(cfg.theta_anomaly) {
            let ghost had_vectors = number::vectors_of(anomalies@);
            let ghost had_labels = text::texts_of(anomaly_labels@);
            anomalies.push(number::copy_vector(&p.embedding));
            anomaly_labels.push(labels[i].clone());
            proof {
                assert(ps.take(i + 1).filter(novel) == had.push(p@));
                assert(number::vectors_of(anomalies@) =~= had_vectors.push(p@.embedding));
                assert(text::texts_of(anomaly_labels@) =~= had_labels.push(p@.label()));
                assert(perception::embeddings_of(had.push(p@)) =~= had_vectors.push(p@.embedding));
                assert(perception::labels_of(had.push(p@)) =~= had_labels.push(p@.label()));
            }
        }
        i += 1;
    }
    proof {
        assert(ps.take(i as int) =~= ps);
        reveal_strlit("");
        assert(""@ =~= Seq::<char>::empty());
    }
    let label_histogram = histogram::tally(&labels);
    let core_label = histogram::head(&label_histogram, "");
    let modes = modes::cluster_modes(arith, perceptions, cfg.modes);
    Some(
        IntentionVector {
            subject: subject.to_owned(),
            centroid: c,
            anomalies,
            core_label,
            anomaly_labels,
            absorbed: perceptions.len(),
            redundant,
            label_histogram,
            modes,
        },
    )
}

/// Distillation loses count of nothing: all perceptions are absorbed, each anomaly has its label,
/// and no perception is both redundant and an anomaly.
pub proof fn distillation_accounts<A: Arithmetic>(
    arith: A,
    subject: Seq<char>,
    ps: Seq<PerceptionView>,
    cfg: DistillConfig,
)
    requires
        ps.len() <= usize::MAX,
        distilled(arith, subject, ps, cfg) is Some,
    ensures
        ({
            let iv = distilled(arith, subject, ps, cfg)->0;
            &&& iv.absorbed == ps.len()
            &&& iv.anomalies.len() == iv.anomaly_labels.len()
            &&& iv.redundant + iv.anomalies.len() <= iv.absorbed
        }),
{
    let c = vector::centroid_of(arith, perception::embeddings_of(ps))->0;
    parts_are_disjoint(ps, redundant_to(arith, c, cfg), anomalous_to(arith, c, cfg));
}

proof fn parts_are_disjoint<T>(s: Seq<T>, a: spec_fn(T) -> bool, b: spec_fn(T) -> bool)
    requires
        forall|x: T| !(#[trigger] a(x) && b(x)),
    ensures
        s.filter(a).len() + s.filter(b).len() <= s.len(),
    decreases s.len(),
{
    reveal(Seq::filter);
    if s.len() > 0 {
        parts_are_disjoint(s.drop_last(), a, b);
        assert(!(a(s.last()) && b(s.last())));
    }
}

/// What perceptions collapse into, and what does not collapse: nothing comes of no perceptions or of
/// unlike dimensions. Otherwise the centroid is the mean of the embeddings, and a perception is novelty
/// exactly if its cosine to the centroid is at most the threshold for anomalies and does not reach that
/// for redundancy; only then is its embedding retained. What lies between the two is neither.
pub proof fn anomalies_are_far_from_the_centroid<A: Arithmetic>(
    arith: A,
    subject: Seq<char>,
    ps: Seq<PerceptionView>,
    cfg: DistillConfig,
    i: int,
)
    requires
        distilled(arith, subject, ps, cfg) is Some,
        ps.len() <= usize::MAX,
        0 <= i < ps.len(),
    ensures
        ({
            let iv = distilled(arith, subject, ps, cfg)->0;
            let closeness = arithmetic::similarity(arith, ps[i].embedding, iv.centroid);
            &&& iv.centroid == arithmetic::mean_of(arith, perception::embeddings_of(ps))
            &&& iv.anomalies.contains(ps[i].embedding) <==> closeness.at_most(cfg.theta_anomaly)
                && !cfg.theta_redundancy.at_most(closeness)
            &&& cfg.theta_redundancy.at_most(closeness) ==> iv.redundant > 0
            &&& cfg.theta_anomaly.below(closeness) ==> !iv.anomalies.contains(ps[i].embedding)
        }),
{
    let iv = distilled(arith, subject, ps, cfg)->0;
    let c = iv.centroid;
    let far = anomalous_to(arith, c, cfg);
    let near = redundant_to(arith, c, cfg);
    let novel = ps.filter(far);
    let p = ps[i];
    if far(p) {
        selection::filter_members(ps, far, p);
        let j = choose|j: int| 0 <= j < novel.len() && novel[j] == p;
        assert(iv.anomalies[j] == p.embedding);
    }
    if iv.anomalies.contains(p.embedding) {
        let j = choose|j: int| 0 <= j < iv.anomalies.len() && iv.anomalies[j] == p.embedding;
        assert(novel.contains(novel[j]));
        selection::filter_members(ps, far, novel[j]);
        assert(far(novel[j]));
    }
    if near(p) {
        selection::filter_members(ps, near, p);
        assert(ps.filter(near).contains(p));
        selection::filter_is_shorter(ps, near);
    }
}

/// The novelty of a cycle is listed as it came: for each novel perception, in their order and for none
/// besides, its embedding and its label; and the redundant perceptions are counted, each once.
pub proof fn novelty_is_listed_in_its_order<A: Arithmetic>(
    arith: A,
    subject: Seq<char>,
    ps: Seq<PerceptionView>,
    cfg: DistillConfig,
)
    requires
        distilled(arith, subject, ps, cfg) is Some,
        ps.len() <= usize::MAX,
    ensures
        ({
            let iv = distilled(arith, subject, ps, cfg)->0;
            let closeness = |p: PerceptionView|
                arithmetic::similarity(arith, p.embedding, iv.centroid);
            let at = selection::places(
                ps,
                |p: PerceptionView|
                    closeness(p).at_most(cfg.theta_anomaly) && !cfg.theta_redundancy.at_most(
                        closeness(p),
                    ),
            );
            let near = selection::places(
                ps,
                |p: PerceptionView| cfg.theta_redundancy.at_most(closeness(p)),
            );
            &&& iv.subject == subject
            &&& iv.anomalies.len() == at.len()
            &&& iv.anomaly_labels.len() == at.len()
            &&& forall|j: int|
                0 <= j < at.len() ==> #[trigger] iv.anomalies[j] == ps[at[j]].embedding
                    && iv.anomaly_labels[j] == ps[at[j]].label()
            &&& iv.redundant == near.len()
            &&& iv.absorbed == ps.len()
        }),
{
    let iv = distilled(arith, subject, ps, cfg)->0;
    let c = iv.centroid;
    let closeness = |p: PerceptionView| arithmetic::similarity(arith, p.embedding, iv.centroid);
    let far = |p: PerceptionView|
        closeness(p).at_most(cfg.theta_anomaly) && !cfg.theta_redundancy.at_most(closeness(p));
    let near = |p: PerceptionView| cfg.theta_redundancy.at_most(closeness(p));
    assert(far =~= anomalous_to(arith, c, cfg));
    assert(near =~= redundant_to(arith, c, cfg));
    selection::filter_is_by_places(ps, far);
    selection::filter_is_by_places(ps, near);
    selection::filter_is_shorter(ps, near);
    let at = selection::places(ps, far);
    assert forall|j: int| 0 <= j < at.len() implies #[trigger] iv.anomalies[j] == ps[at[j]].embedding
        && iv.anomaly_labels[j] == ps[at[j]].label() by {
        assert(ps.filter(far)[j] == ps[at[j]]);
    }
}

/// The stricter a threshold for anomalies, the less is retained.
pub proof fn stricter_thresholds_retain_less<A: Arithmetic>(
    arith: A,
    subject: Seq<char>,
    ps: Seq<PerceptionView>,
    cfg: DistillConfig,
    strict: Single,
)
    requires
        strict.at_most(cfg.theta_anomaly),
        distilled(arith, subject, ps, cfg) is Some,
    ensures
        ({
            let less = distilled(
                arith,
                subject,
                ps,
                (DistillConfig { theta_anomaly: strict, ..cfg }),
            );
            &&& less is Some
            &&& (less->0).anomalies.len() <= (distilled(arith, subject, ps, cfg)->0).anomalies.len()
            &&& (less->0).centroid == (distilled(arith, subject, ps, cfg)->0).centroid
        }),
{
    let c = (distilled(arith, subject, ps, cfg)->0).centroid;
    let narrow = DistillConfig { theta_anomaly: strict, ..cfg };
    selection::looser_tests_keep_more(
        ps,
        anomalous_to(arith, c, narrow),
        anomalous_to(arith, c, cfg),
    );
}

/// What dominates a cycle: its label is the one that most of its perceptions carry, of equals the first
/// in the dictionary; its histogram counts each label as often as it occurs; and its behaviours are the
/// groups of the perceptions.
pub proof fn cycles_are_named_after_what_dominates<A: Arithmetic>(
    arith: A,
    subject: Seq<char>,
    ps: Seq<PerceptionView>,
    cfg: DistillConfig,
    label: Seq<char>,
)
    requires
        distilled(arith, subject, ps, cfg) is Some,
        ps.len() <= usize::MAX,
    ensures
        ({
            let iv = distilled(arith, subject, ps, cfg)->0;
            let labels = perception::labels_of(ps);
            &&& labels.contains(iv.core_label)
            &&& histogram::occurrences(labels, label) <= histogram::occurrences(
                labels,
                iv.core_label,
            )
            &&& labels.contains(label) && label != iv.core_label && histogram::occurrences(
                labels,
                label,
            ) == histogram::occurrences(labels, iv.core_label) ==> text::before(
                iv.core_label,
                label,
            )
            &&& histogram::count_of(histogram::counts(iv.label_histogram), label)
                == histogram::occurrences(labels, label)
            &&& iv.label_histogram.len() > 0
            &&& iv.label_histogram[0].0 == iv.core_label
            &&& iv.modes == modes::clustered(arith, ps, cfg.modes)
        }),
{
    let iv = distilled(arith, subject, ps, cfg)->0;
    let labels = perception::labels_of(ps);
    let m = histogram::tally_of(labels);
    histogram::tally_finite(labels);
    histogram::tally_bounded(labels);
    histogram::histogram_is_faithful(m);
    histogram::tallies_count_occurrences(labels, label);
    histogram::the_head_dominates(labels, Seq::empty(), label);
    histogram::histograms_put_the_frequent_first(m);
    histogram::tallies_count_occurrences(labels, labels[0]);
    assert(m.contains_key(labels[0]));
}

/// Perceptions have an essence exactly if there are any and all their embeddings have one dimension.
pub proof fn likes_are_distilled<A: Arithmetic>(
    arith: A,
    subject: Seq<char>,
    ps: Seq<PerceptionView>,
    cfg: DistillConfig,
)
    ensures
        distilled(arith, subject, ps, cfg) is Some <==> ps.len() > 0 && forall|i: int|
            0 <= i < ps.len() ==> (#[trigger] ps[i]).embedding.len() == ps[0].embedding.len(),
{
    let rows = perception::embeddings_of(ps);
    if distilled(arith, subject, ps, cfg) is Some {
        assert forall|i: int| 0 <= i < ps.len() implies (#[trigger] ps[i]).embedding.len()
            == ps[0].embedding.len() by {
            assert(rows[i].len() == rows[0].len());
        }
    }
    if ps.len() > 0 && forall|i: int|
        0 <= i < ps.len() ==> (#[trigger] ps[i]).embedding.len() == ps[0].embedding.len() {
        assert(vector::uniform(rows)) by {
            assert forall|i: int| 0 <= i < rows.len() implies (#[trigger] rows[i]).len()
                == rows[0].len() by {
                assert(ps[i].embedding.len() == ps[0].embedding.len());
            }
        }
    }
}

/// What an intention vector holds is what its fields hold.
pub proof fn intentions_hold_their_fields(iv: IntentionVector)
    ensures
        iv@.subject == iv.subject@,
        iv@.centroid == iv.centroid@,
        iv@.core_label == iv.core_label@,
        iv@.absorbed == iv.absorbed,
        iv@.redundant == iv.redundant,
        iv@.label_histogram == histogram::entries(iv.label_histogram@),
        iv@.anomalies.len() == iv.anomalies@.len(),
        forall|i: int|
            0 <= i < iv.anomalies@.len() ==> #[trigger] iv@.anomalies[i] == iv.anomalies@[i]@,
        iv@.anomaly_labels.len() == iv.anomaly_labels@.len(),
        forall|i: int|
            0 <= i < iv.anomaly_labels@.len() ==> #[trigger] iv@.anomaly_labels[i]
                == iv.anomaly_labels@[i]@,
        iv@.modes.len() == iv.modes@.len(),
        forall|i: int| 0 <= i < iv.modes@.len() ==> #[trigger] iv@.modes[i] == iv.modes@[i]@,
{
}

} // verus!
