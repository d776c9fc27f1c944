//! The engine: physics, perception, synthesis, archetypes, evocation, facts, reflection, runtime.

use letheo::archetype::ArcMilestone;
use letheo::archetype::ArchetypeStore;
use letheo::archetype::Resilience;
use letheo::arithmetic::Arithmetic;
use letheo::entropy;
use letheo::entropy::halflife_from_lambda;
use letheo::entropy::lambda_from_halflife;
use letheo::entropy::EntropyTrace;
use letheo::entropy::DEFAULT_THETA_FADE;
use letheo::evoke::approx_token_count;
use letheo::evoke::evoke;
use letheo::evoke::evoke_unified;
use letheo::evoke::ArcDetail;
use letheo::evoke::EvokeRequest;
use letheo::evoke::DEFAULT_TOKENS_PER_VECTOR;
use letheo::factstore;
use letheo::factstore::FactStore;
use letheo::factstore::Remember;
use letheo::modes;
use letheo::modes::cluster_modes;
use letheo::modes::ModeConfig;
use letheo::modes::ModeSeed;
use letheo::number::Double;
use letheo::number::Single;
use letheo::number::Vector;
use letheo::perception::Perception;
use letheo::perception::PerceptionBuffer;
use letheo::reflection::materialize;
use letheo::reflection::predict_next;
use letheo::reflection::predictive_compression;
use letheo::reflection::reflect;
use letheo::reflection::Insight;
use letheo::reflection::DEFAULT_INSIGHT_SALIENCE;
use letheo::reflection::DEFAULT_REVIVAL_FLOOR;
use letheo::runtime::CognitiveRuntime;
use letheo::runtime::RuntimeConfig;
use letheo::runtime::INSIGHT_HALFLIFE_SECS;
use letheo::synthesis;
use letheo::synthesis::distill;
use letheo::synthesis::DistillConfig;
use letheo::synthesis::IntentionVector;

/// The floating-point unit of the machine.
#[derive(Clone, Copy)]
struct Ieee;

impl Arithmetic for Ieee {
    fn add64(&self, x: Double, y: Double) -> Double {
        d(f(x) + f(y))
    }
    fn sub64(&self, x: Double, y: Double) -> Double {
        d(f(x) - f(y))
    }
    fn mul64(&self, x: Double, y: Double) -> Double {
        d(f(x) * f(y))
    }
    fn div64(&self, x: Double, y: Double) -> Double {
        d(f(x) / f(y))
    }
    fn add32(&self, x: Single, y: Single) -> Single {
        s(g(x) + g(y))
    }
    fn sub32(&self, x: Single, y: Single) -> Single {
        s(g(x) - g(y))
    }
    fn mul32(&self, x: Single, y: Single) -> Single {
        s(g(x) * g(y))
    }
    fn div32(&self, x: Single, y: Single) -> Single {
        s(g(x) / g(y))
    }
    fn sqrt32(&self, x: Single) -> Single {
        s(g(x).sqrt())
    }
    fn exp64(&self, x: Double) -> Double {
        d(f(x).exp())
    }
    fn widen(&self, x: Single) -> Double {
        d(f64::from(g(x)))
    }
    fn count64(&self, x: u64) -> Double {
        d(x as f64)
    }
    fn count32(&self, x: u64) -> Single {
        s(x as f32)
    }
    fn round64(&self, x: Double) -> u64 {
        f(x).round() as u64
    }
    fn parse64(&self, text: &str) -> Option<Double> {
        text.parse::<f64>().ok().map(d)
    }
    fn fixed64(&self, x: Double, digits: usize) -> String {
        format!("{:.*}", digits, f(x))
    }
    fn cosine(&self, x: &Vector, y: &Vector) -> Single {
        let dot: f32 = x.iter().zip(y).map(|(a, b)| g(*a) * g(*b)).sum();
        let nx: f32 = x.iter().map(|a| g(*a) * g(*a)).sum::<f32>().sqrt();
        let ny: f32 = y.iter().map(|a| g(*a) * g(*a)).sum::<f32>().sqrt();
        let c = dot / (nx * ny);
        if nx * ny == 0.0 || c.is_nan() {
            s(0.0)
        } else {
            s(c.clamp(-1.0, 1.0))
        }
    }
    fn mean(&self, rows: &Vec<Vector>) -> Vector {
        let mut out = vec![0.0f32; rows[0].len()];
        for row in rows {
            for (o, x) in out.iter_mut().zip(row) {
                *o += g(*x);
            }
        }
        out.iter().map(|o| s(*o / rows.len() as f32)).collect()
    }
}

fn d(x: f64) -> Double {
    Double { bits: if x.is_nan() { f64::NAN.to_bits() } else { x.to_bits() } }
}

fn f(x: Double) -> f64 {
    f64::from_bits(x.bits)
}

fn s(x: f32) -> Single {
    Single { bits: if x.is_nan() { f32::NAN.to_bits() } else { x.to_bits() } }
}

fn g(x: Single) -> f32 {
    f32::from_bits(x.bits)
}

fn v(xs: &[f32]) -> Vector {
    xs.iter().map(|x| s(*x)).collect()
}

const HALF_DAY: f64 = 12.0 * 3600.0;
const DAY: f64 = 86_400.0;
const HF: f64 = 3600.0;

fn theta() -> Double {
    Double { bits: DEFAULT_THETA_FADE }
}

fn trace(salience: f64, halflife: f64, now: f64) -> EntropyTrace {
    EntropyTrace::new(&Ieee, d(salience), d(halflife), d(now))
}

fn seen(subject: &str, e: &[f32], salience: f64, halflife: f64, now: f64) -> Perception {
    Perception::new(&Ieee, subject, v(e), d(salience), d(halflife), d(now))
}

/// A perception of the subject `u`, of full salience, with one trait.
fn acted(act: &str, e: &[f32]) -> Perception {
    seen("u", e, 1.0, HF, 0.0).with_trait("act", act)
}

fn borrowed(ps: &[Perception]) -> Vec<&Perception> {
    ps.iter().collect()
}

fn iv(subject: &str, c: &[f32], absorbed: usize) -> IntentionVector {
    IntentionVector {
        subject: subject.to_string(),
        centroid: v(c),
        anomalies: vec![],
        core_label: format!("{subject}-core"),
        anomaly_labels: vec![],
        absorbed,
        redundant: 0,
        label_histogram: vec![(format!("{subject}-core"), absorbed)],
        modes: vec![],
    }
}

fn runtime() -> CognitiveRuntime<Ieee> {
    CognitiveRuntime::new(RuntimeConfig::default(), Ieee)
}

// The numbers that the engine is configured with.

#[test]
fn constants_have_their_documented_values() {
    assert_eq!(f(Double { bits: entropy::LN2 }), std::f64::consts::LN_2);
    assert_eq!(f(Double { bits: entropy::ONE }), 1.0);
    assert_eq!(f(Double { bits: entropy::TWO }), 2.0);
    assert_eq!(f(Double { bits: entropy::HALF }), 0.5);
    assert_eq!(f(Double { bits: entropy::TWICE_LEAST_NORMAL }), 2.0 * f64::MIN_POSITIVE);
    assert_eq!(f(theta()), 0.05);
    assert_eq!(f(Double { bits: entropy::MAX_HALFLIFE_SECS }), 10.0 * 365.0 * DAY);
    assert_eq!(
        f(Double { bits: entropy::LAMBDA_FLOOR }),
        std::f64::consts::LN_2 / (10.0 * 365.0 * DAY)
    );
    assert_eq!(g(Single { bits: modes::DEFAULT_MODE_THETA }), 0.5);
    assert_eq!(g(Single { bits: synthesis::DEFAULT_THETA_REDUNDANCY }), 0.92);
    assert_eq!(g(Single { bits: synthesis::DEFAULT_THETA_ANOMALY }), 0.30);
    assert_eq!(g(Single { bits: factstore::DEFAULT_FACT_DEDUP }), 0.95);
    assert_eq!(f(Double { bits: factstore::DEFAULT_FACT_CONSOLIDATION }), 0.1);
    assert_eq!(f(Double { bits: DEFAULT_INSIGHT_SALIENCE }), 0.9);
    assert_eq!(g(Single { bits: DEFAULT_REVIVAL_FLOOR }), 0.25);
    assert_eq!(f(Double { bits: INSIGHT_HALFLIFE_SECS }), 90.0 * DAY);
    assert_eq!(modes::DEFAULT_MAX_MODES, 8);
    assert_eq!(DEFAULT_TOKENS_PER_VECTOR, 24);
    assert_eq!(f(Resilience::Low.halflife()), 30.0 * DAY);
    assert_eq!(f(Resilience::Medium.halflife()), 180.0 * DAY);
    assert_eq!(f(Resilience::High.halflife()), 720.0 * DAY);
}

// The physics of forgetting.

#[test]
fn lambda_halflife_roundtrip() {
    let l = lambda_from_halflife(&Ieee, d(HALF_DAY));
    assert!((f(halflife_from_lambda(&Ieee, l)) - HALF_DAY).abs() < 1e-6);
}

#[test]
fn weight_halves_after_one_halflife() {
    let t = trace(1.0, HALF_DAY, 0.0);
    let w0 = f(t.weight(&Ieee, d(0.0)));
    let w1 = f(t.weight(&Ieee, d(HALF_DAY)));
    assert!((w0 - 1.0).abs() < 1e-9);
    assert!((w1 - 0.5).abs() < 1e-6, "after one half-life the weight halves");
}

#[test]
fn weight_is_monotonic_decreasing_in_time() {
    let t = trace(0.8, HALF_DAY, 0.0);
    let mut prev = f64::INFINITY;
    for step in 0..50 {
        let w = f(t.weight(&Ieee, d(step as f64 * 3600.0)));
        assert!(w < prev, "weight must decrease monotonically with Δt");
        prev = w;
    }
}

#[test]
fn weight_is_asymptotic_never_zero() {
    let t = trace(1.0, HALF_DAY, 0.0);
    let w = f(t.weight(&Ieee, d(HALF_DAY * 1000.0)));
    assert!(w > 0.0, "decay is asymptotic: it never reaches exactly 0");
    assert!(w < 1e-6);
}

#[test]
fn reinforcement_resets_delta_t_and_raises_weight() {
    let mut t = trace(1.0, HALF_DAY, 0.0);
    // One half-life on, the weight is half.
    let decayed = f(t.weight(&Ieee, d(HALF_DAY)));
    assert!((decayed - 0.5).abs() < 1e-6);
    t.reinforce(&Ieee, d(HALF_DAY), d(0.0));
    let after = f(t.weight(&Ieee, d(HALF_DAY)));
    assert!(after > decayed, "remembering reinforces the weight");
    // salience(1) · e^0 · (1 + 1) = 2.0
    assert!((after - 2.0).abs() < 1e-6);
    assert_eq!(f(t.delta_t(&Ieee, d(HALF_DAY))), 0.0);
}

#[test]
fn consolidation_extends_halflife() {
    let mut t = trace(1.0, HALF_DAY, 0.0);
    let lambda_before = f(t.lambda);
    t.reinforce(&Ieee, d(0.0), d(0.5)); // halves λ → half-life ×2
    assert!((f(t.lambda) - lambda_before * 0.5).abs() < 1e-12);
    assert!(f(t.lambda) < lambda_before, "consolidation extends the half-life");
}

#[test]
fn reinforcement_has_diminishing_returns_and_lambda_floor() {
    // The first reinforcement adds 1.0, the rest add less each time.
    let mut t = trace(1.0, HALF_DAY, 0.0);
    t.reinforce(&Ieee, d(0.0), d(0.0));
    assert!((f(t.reinforcement) - 1.0).abs() < 1e-9, "1st reinforcement = +1.0");
    for _ in 0..50 {
        t.reinforce(&Ieee, d(0.0), d(0.0));
    }
    assert!(f(t.reinforcement) < 12.0, "51 reinforcements ⇒ ≈√n, not 51: {}", f(t.reinforcement));
    assert!(f(t.reinforcement) > 1.0, "but it keeps growing");

    // However much is consolidated, the half-life never becomes infinite.
    let mut c = trace(1.0, HALF_DAY, 0.0);
    for _ in 0..500 {
        c.reinforce(&Ieee, d(0.0), d(0.5));
    }
    assert!(
        (f(c.lambda) - f(Double { bits: entropy::LAMBDA_FLOOR })).abs() < 1e-18,
        "λ bottoms out at the floor, not at 0"
    );
}

#[test]
fn fade_triggers_below_threshold() {
    let t = trace(0.2, HALF_DAY, 0.0);
    assert!(!t.is_faded(&Ieee, d(0.0), theta()), "just perceived does not fade");
    assert!(t.is_faded(&Ieee, d(HALF_DAY * 5.0), theta()));
    assert!(t.is_alive(&Ieee, d(0.0), theta()));
    assert!(!t.is_alive(&Ieee, d(HALF_DAY * 5.0), theta()));
}

#[test]
fn time_never_runs_backwards() {
    let t = trace(1.0, HALF_DAY, 100.0);
    assert_eq!(f(t.delta_t(&Ieee, d(40.0))), 0.0);
    assert_eq!(f(t.weight(&Ieee, d(40.0))), 1.0);
}

// Short-term memory.

#[test]
fn perceive_and_count() {
    let mut buf = PerceptionBuffer::new();
    buf.perceive(seen("user:X", &[1.0, 0.0], 0.5, HALF_DAY, 0.0));
    assert_eq!(buf.len(), 1);
}

#[test]
fn fade_sweep_removes_decayed_noise() {
    let mut buf = PerceptionBuffer::new();
    // Low-salience, short half-life noise.
    buf.perceive(seen("user:X", &[1.0], 0.2, HALF_DAY, 0.0));
    // Strong, persistent signal.
    buf.perceive(seen("user:X", &[1.0], 1.0, HALF_DAY * 100.0, 0.0));

    let faded = buf.fade_swept(&Ieee, d(HALF_DAY * 5.0), theta());
    assert_eq!(faded, 1, "only the noise fades");
    assert_eq!(buf.len(), 1);
}

#[test]
fn alive_filters_by_subject() {
    let mut buf = PerceptionBuffer::new();
    buf.perceive(seen("user:X", &[1.0], 1.0, HALF_DAY, 0.0));
    buf.perceive(seen("user:Y", &[1.0], 1.0, HALF_DAY, 0.0));
    let n = buf.alive_for(&Ieee, "user:X", d(0.0), theta()).len();
    assert_eq!(n, 1);
}

#[test]
fn alive_and_fade_can_be_narrowed() {
    let mut buf = PerceptionBuffer::new();
    assert!(buf.is_empty());
    buf.perceive(acted("a", &[1.0]));
    buf.perceive(acted("b", &[1.0]));
    let is_a = |p: &Perception| p.representative_text() == "a";
    assert_eq!(buf.alive_for_where(&Ieee, "u", d(0.0), theta(), &is_a).len(), 1);
    assert_eq!(buf.fade_swept_where(&is_a), 1);
    assert_eq!(buf.len(), 1);
    assert!(!buf.is_empty());
}

#[test]
fn representative_text_reads_traits_by_name() {
    let p = seen("u", &[1.0], 1.0, HF, 0.0)
        .with_trait("object", "shoes")
        .with_trait("act", "rent")
        .with_trait("act", "purchase");
    assert_eq!(p.representative_text(), "purchase shoes");
    assert_eq!(f(p.weight(&Ieee, d(0.0))), 1.0);
}

// Modes.

#[test]
fn unimodal_set_yields_one_mode() {
    let ps = [
        acted("trail", &[1.0, 0.0]),
        acted("trail", &[0.99, 0.01]),
        acted("trail", &[1.0, 0.02]),
    ];
    let modes = cluster_modes(&Ieee, &borrowed(&ps), ModeConfig::default());
    assert_eq!(modes.len(), 1);
    assert_eq!(modes[0].absorbed, 3);
    assert_eq!(modes[0].label, "trail");
}

#[test]
fn three_distinct_behaviors_yield_three_modes() {
    let mut ps = Vec::new();
    for _ in 0..5 {
        ps.push(acted("noir", &[1.0, 0.0, 0.0]));
        ps.push(acted("docs", &[0.0, 1.0, 0.0]));
        ps.push(acted("scifi", &[0.0, 0.0, 1.0]));
    }
    let modes = cluster_modes(&Ieee, &borrowed(&ps), ModeConfig::default());
    assert_eq!(modes.len(), 3, "three coherent modes, not a noisy average");
    let labels: Vec<&str> = modes.iter().map(|m| m.label.as_str()).collect();
    assert!(labels.contains(&"noir") && labels.contains(&"docs") && labels.contains(&"scifi"));
    for m in &modes {
        let max = m.centroid.iter().map(|x| g(*x)).fold(f32::MIN, f32::max);
        assert!(max > 0.9, "the mode's centroid is sharp, not the mean: {:?}", m.centroid);
    }
    // Every perception belongs to one mode.
    assert_eq!(modes.iter().map(|m| m.absorbed).sum::<usize>(), 15);
}

fn seed(c: &[f32], label: &str, n: usize) -> ModeSeed {
    ModeSeed {
        centroid: v(c),
        label: label.into(),
        label_histogram: vec![(label.into(), n)],
        absorbed: n,
    }
}

#[test]
fn merge_blends_by_volume_and_reinforces() {
    let mut mode = seed(&[1.0, 0.0], "a", 100).into_mode(&Ieee, d(3600.0), d(0.0));
    let r0 = f(mode.trace.reinforcement);
    mode.merge(&Ieee, &seed(&[0.0, 1.0], "b", 50), d(1.0));
    // (100·1, 50·1)/150 = (0.667, 0.333) — volume-weighted, not (0.5, 0.5).
    assert!((g(mode.centroid[0]) - 2.0 / 3.0).abs() < 1e-6);
    assert!((g(mode.centroid[1]) - 1.0 / 3.0).abs() < 1e-6);
    assert_eq!(mode.absorbed, 150);
    assert!(f(mode.trace.reinforcement) > r0, "merging a recurrent mode reinforces it");
    // The counts of both labels stay, the larger first.
    assert_eq!(mode.label_histogram, vec![("a".to_string(), 100), ("b".to_string(), 50)]);
    assert_eq!(mode.label, "a");
}

#[test]
fn mode_drift_grows_as_behavior_shifts_but_origin_is_fixed() {
    let mut mode = seed(&[1.0, 0.0], "a", 100).into_mode(&Ieee, d(3600.0), d(0.0));
    assert!(g(mode.drift(&Ieee)) < 1e-6, "newborn mode has not drifted");
    mode.merge(&Ieee, &seed(&[0.0, 1.0], "a", 100), d(1.0));
    // (100·[1,0] + 100·[0,1])/200 = [0.5,0.5]; cos([0.5,0.5],[1,0]) ≈ 0.707 → drift ≈ 0.293.
    assert!(g(mode.drift(&Ieee)) > 0.25, "the mode drifted from its origin: {}", g(mode.drift(&Ieee)));
    assert_eq!(mode.origin, v(&[1.0, 0.0]), "the origin is still the birth direction");
}

// Synthesis.

#[test]
fn distill_empty_is_none() {
    assert!(distill(&Ieee, "user:X", &vec![], DistillConfig::default()).is_none());
}

#[test]
fn distill_of_mixed_dimensions_is_none() {
    let ps = [acted("a", &[1.0]), acted("a", &[1.0, 0.0])];
    assert!(distill(&Ieee, "u", &borrowed(&ps), DistillConfig::default()).is_none());
}

#[test]
fn distill_captures_core_and_anomaly_labels() {
    let mut ps: Vec<Perception> =
        (0..8).map(|i| acted("trail", &[1.0, 0.0 + i as f32 * 0.001])).collect();
    ps.push(acted("crypto", &[0.0, 1.0]));
    let iv = distill(&Ieee, "u", &borrowed(&ps), DistillConfig::default()).unwrap();
    assert_eq!(iv.core_label, "trail", "the core is labelled with the central content");
    assert!(iv.anomaly_labels.contains(&"crypto".to_string()), "the anomaly keeps its text");
    assert_eq!(iv.anomaly_labels.len(), iv.anomalies.len(), "labels aligned with vectors");
}

#[test]
fn redundant_cluster_collapses_to_centroid() {
    let es: [&[f32]; 5] = [&[1.0, 0.0], &[0.99, 0.01], &[1.0, 0.02], &[0.98, 0.0], &[1.0, 0.0]];
    let ps: Vec<Perception> = es.iter().map(|e| seen("user:X", e, 1.0, HF, 0.0)).collect();
    let iv = distill(&Ieee, "user:X", &borrowed(&ps), DistillConfig::default()).unwrap();
    assert_eq!(iv.absorbed, 5);
    assert!(iv.redundant >= 4, "the dense cluster is mostly redundant");
    assert!(iv.anomalies.is_empty(), "no novelty in a homogeneous cluster");
}

#[test]
fn outlier_is_retained_as_anomaly() {
    let es: [&[f32]; 5] = [&[1.0, 0.0], &[1.0, 0.0], &[1.0, 0.0], &[1.0, 0.0], &[0.0, 1.0]];
    let ps: Vec<Perception> = es.iter().map(|e| seen("user:X", e, 1.0, HF, 0.0)).collect();
    let iv = distill(&Ieee, "user:X", &borrowed(&ps), DistillConfig::default()).unwrap();
    assert_eq!(iv.anomalies.len(), 1, "the outlier is retained as novelty");
}

#[test]
fn compression_ratio_is_meaningful() {
    let ps: Vec<Perception> = (0..1000).map(|_| seen("user:X", &[1.0, 0.0], 1.0, HF, 0.0)).collect();
    let iv = distill(&Ieee, "user:X", &borrowed(&ps), DistillConfig::default()).unwrap();
    assert_eq!(iv.absorbed, 1000);
    assert!(iv.anomalies.is_empty());
}

// Archetypes.

#[test]
fn imprint_creates_then_evolves() {
    let mut store = ArchetypeStore::new();
    store.imprint(&Ieee, &iv("user:X", &[1.0, 0.0], 100), Resilience::High, d(0.0));
    assert_eq!(store.len(), 1);
    assert_eq!(store.get("user:X").unwrap().represented, 100);

    store.imprint(&Ieee, &iv("user:X", &[0.0, 1.0], 50), Resilience::High, d(3600.0));
    assert_eq!(store.len(), 1);
    let a = store.get("user:X").unwrap();
    assert_eq!(a.represented, 150);
    // 100 old events ([1,0]) + 50 new ([0,1]) ⇒ (0.667, 0.333), not (0.5, 0.5).
    assert!((g(a.core[0]) - 2.0 / 3.0).abs() < 1e-6, "core[0] = {}", g(a.core[0]));
    assert!((g(a.core[1]) - 1.0 / 3.0).abs() < 1e-6, "core[1] = {}", g(a.core[1]));
}

#[test]
fn evolve_weights_by_evidence_volume() {
    let mut store = ArchetypeStore::new();
    store.imprint(&Ieee, &iv("u", &[1.0, 0.0], 10_000), Resilience::High, d(0.0));
    store.imprint(&Ieee, &iv("u", &[0.0, 1.0], 1), Resilience::High, d(1.0));
    let core = &store.get("u").unwrap().core;
    assert!(g(core[0]) > 0.999, "identity barely moved: {core:?}");
}

#[test]
fn resonate_ranks_by_cosine() {
    let mut store = ArchetypeStore::new();
    store.imprint(&Ieee, &iv("user:A", &[1.0, 0.0], 10), Resilience::High, d(0.0));
    store.imprint(&Ieee, &iv("user:B", &[0.0, 1.0], 10), Resilience::High, d(0.0));
    let top = store.resonate(&Ieee, &v(&[0.9, 0.1]), 1, d(0.0), theta());
    assert_eq!(top.len(), 1);
    assert_eq!(top[0].subject, "user:A");
}

#[test]
fn resonate_weights_relevance_by_life_l2() {
    // Equal relevance: only life tells the two apart.
    let half = Resilience::Low.halflife(); // 30 days
    let mut store = ArchetypeStore::new();
    store.imprint(&Ieee, &iv("user:stale", &[1.0, 0.0], 10), Resilience::Low, d(0.0));
    store.imprint(&Ieee, &iv("user:fresh", &[1.0, 0.0], 10), Resilience::Low, half);

    let ranked = store.resonate(&Ieee, &v(&[1.0, 0.0]), 2, half, theta());
    assert_eq!(ranked.len(), 2, "both still alive");
    assert_eq!(ranked[0].subject, "user:fresh", "equal relevance: freshest ranks first");
    assert_eq!(ranked[1].subject, "user:stale");
}

#[test]
fn high_resilience_outlives_low() {
    assert!(f(Resilience::High.halflife()) > f(Resilience::Low.halflife()));
}

#[test]
fn multimodal_resonance_recovers_the_right_mode_where_centroid_is_blind() {
    // Two opposite behaviours: their mean is the null vector.
    let mut ps = Vec::new();
    for _ in 0..50 {
        ps.push(acted("left", &[1.0, 0.0]));
        ps.push(acted("right", &[-1.0, 0.0]));
    }
    let iv = distill(&Ieee, "u", &borrowed(&ps), DistillConfig::default()).unwrap();
    assert_eq!(iv.modes.len(), 2, "two opposite behaviours → two modes");

    let mut store = ArchetypeStore::new();
    store.imprint(&Ieee, &iv, Resilience::High, d(0.0));
    let a = store.get("u").unwrap();
    assert!(
        g(Ieee.cosine(&a.core, &v(&[1.0, 0.0]))).abs() < 1e-3,
        "single centroid is blind: {:?}",
        a.core
    );
    assert!(
        (g(a.resonance(&Ieee, &v(&[1.0, 0.0]))) - 1.0).abs() < 1e-3,
        "correct mode resonates fully"
    );
    assert!(
        (g(a.resonance(&Ieee, &v(&[-1.0, 0.0]))) - 1.0).abs() < 1e-3,
        "other mode also resonates fully for its query"
    );
}

#[test]
fn resonant_mode_label_picks_the_aspect_that_matches_the_query() {
    let mut ps = Vec::new();
    for _ in 0..6 {
        ps.push(acted("noir", &[1.0, 0.0]));
        ps.push(acted("docs", &[0.0, 1.0]));
    }
    let iv = distill(&Ieee, "u", &borrowed(&ps), DistillConfig::default()).unwrap();
    let mut store = ArchetypeStore::new();
    store.imprint(&Ieee, &iv, Resilience::High, d(0.0));
    let a = store.get("u").unwrap();
    assert_eq!(a.resonant_mode_label(&Ieee, &v(&[1.0, 0.0])).as_deref(), Some("noir"));
    assert_eq!(a.resonant_mode_label(&Ieee, &v(&[0.0, 1.0])).as_deref(), Some("docs"));
}

#[test]
fn consolidate_anchors_archetype_and_modes() {
    let ps: Vec<Perception> = (0..4).map(|_| acted("x", &[1.0, 0.0])).collect();
    let iv = distill(&Ieee, "u", &borrowed(&ps), DistillConfig::default()).unwrap();
    let mut store = ArchetypeStore::new();
    store.imprint(&Ieee, &iv, Resilience::High, d(0.0));
    let (r0, lambda0, mr0) = {
        let a = store.get("u").unwrap();
        (f(a.trace.reinforcement), f(a.trace.lambda), f(a.modes[0].trace.reinforcement))
    };
    assert!(store.consolidate(&Ieee, "u", d(10.0), d(0.2)));
    let a = store.get("u").unwrap();
    assert!(f(a.trace.reinforcement) > r0, "archetype gains reinforcement");
    assert!(f(a.trace.lambda) < lambda0, "λ drops → permanence gained");
    assert!(f(a.modes[0].trace.reinforcement) > mr0, "modes are also anchored");
    assert!(!store.consolidate(&Ieee, "ghost", d(10.0), d(0.2)));
}

// Evocation.

fn store_with(absorbed: usize, anomalies: usize) -> ArchetypeStore {
    let mut store = ArchetypeStore::new();
    store.imprint(
        &Ieee,
        &IntentionVector {
            subject: "user:Xolotl".into(),
            centroid: v(&[1.0, 0.0]),
            anomalies: vec![v(&[0.0, 1.0]); anomalies],
            core_label: "core".into(),
            anomaly_labels: vec!["novelty".into(); anomalies],
            absorbed,
            redundant: 0,
            label_histogram: vec![("core".into(), absorbed)],
            modes: vec![],
        },
        Resilience::High,
        d(0.0),
    );
    store
}

fn learn(facts: &mut FactStore, subject: &str, text: &str, e: &[f32]) -> Remember {
    facts.remember(&Ieee, subject, text, v(e), "a", d(1.0), d(DAY), d(0.0))
}

#[test]
fn evoke_unknown_subject_is_none() {
    let store = ArchetypeStore::new();
    assert!(evoke(&Ieee, &store, &EvokeRequest::new("ghost", 800), d(0.0)).is_none());
}

#[test]
fn evoke_of_a_faded_subject_is_none() {
    let store = store_with(10, 0);
    let req = EvokeRequest::new("user:Xolotl", 800);
    assert!(evoke(&Ieee, &store, &req, d(720.0 * DAY)).is_some());
    assert!(evoke(&Ieee, &store, &req, d(5.0 * 720.0 * DAY)).is_none());
}

#[test]
fn unified_evoke_answers_character_and_nominal_under_one_budget() {
    let archetypes = store_with(10_000, 2);
    let mut facts = FactStore::new();
    facts.remember(
        &Ieee,
        "user:Xolotl",
        "API key is sk-ABC123",
        v(&[0.0, 1.0]),
        "agent",
        d(1.0),
        d(86_400.0),
        d(0.0),
    );
    let req = EvokeRequest::new("user:Xolotl", 800);
    let u = evoke_unified(
        &Ieee,
        &archetypes,
        &facts,
        &req,
        &v(&[0.0, 1.0]),
        100,
        d(0.0),
        &approx_token_count,
    );
    assert!(u.gist.is_some(), "character: layer-2 is present");
    assert_eq!(u.facts.len(), 1, "nominal: the exact fact was included");
    assert_eq!(u.facts[0].text, "API key is sk-ABC123", "layer-1 lossless, verbatim");
    assert!(u.total_tokens <= 800, "total {} ≤ 800", u.total_tokens);
    assert_eq!(u.total_tokens, u.fact_tokens + u.gist.as_ref().unwrap().token_estimate);
}

#[test]
fn unified_evoke_fact_cost_is_injected_not_hardcoded() {
    let archetypes = ArchetypeStore::new();
    let mut facts = FactStore::new();
    learn(&mut facts, "u", "one two", &[1.0, 0.0]);
    learn(&mut facts, "u", "three four", &[0.7, 0.7]);
    learn(&mut facts, "u", "five six", &[0.0, 1.0]);
    let req = EvokeRequest::new("u", 800);
    let q = v(&[0.7, 0.7]);

    let cheap = evoke_unified(&Ieee, &archetypes, &facts, &req, &q, 3, d(0.0), &|_: &str| 1);
    assert_eq!(cheap.facts.len(), 3);
    assert_eq!(cheap.fact_tokens, 3);

    let pricey = evoke_unified(&Ieee, &archetypes, &facts, &req, &q, 3, d(0.0), &|_: &str| 5);
    assert_eq!(pricey.facts.len(), 0);

    let one = evoke_unified(&Ieee, &archetypes, &facts, &req, &q, 5, d(0.0), &|_: &str| 5);
    assert_eq!(one.facts.len(), 1);
    assert_eq!(one.facts[0].text, "three four");
}

#[test]
fn unified_skips_gist_when_facts_consume_budget() {
    let archetypes = store_with(10_000, 0);
    let mut facts = FactStore::new();
    learn(&mut facts, "user:Xolotl", "x", &[1.0, 0.0]);
    let req = EvokeRequest::new("user:Xolotl", 30);
    let q = v(&[1.0, 0.0]);
    let u = evoke_unified(&Ieee, &archetypes, &facts, &req, &q, 30, d(0.0), &|_: &str| 25);
    assert_eq!(u.facts.len(), 1);
    assert!(u.gist.is_none(), "facts consumed the budget: no gist");
    assert_eq!(u.total_tokens, 25);
    assert!(u.total_tokens <= 30);
}

#[test]
fn evoke_respects_token_budget() {
    let store = store_with(100_000, 1000);
    let ctx = evoke(&Ieee, &store, &EvokeRequest::new("user:Xolotl", 800), d(0.0)).unwrap();
    assert!(ctx.token_estimate <= 800, "context fits within the budget");
    // Core, one milestone and as many anomalies as fit: 33 vectors of 24 tokens.
    assert_eq!(ctx.vectors_returned, 33);
    assert_eq!(ctx.token_estimate, 792);
}

#[test]
fn evoke_fits_any_budget() {
    let store = store_with(100_000, 1000);
    for budget in [0, 1, 23, 24, 25, 47, 48, 100, 799, 800, 801, 100_000] {
        let ctx = evoke(&Ieee, &store, &EvokeRequest::new("user:Xolotl", budget), d(0.0)).unwrap();
        assert!(ctx.token_estimate <= budget, "{} > {budget}", ctx.token_estimate);
    }
}

#[test]
fn the_core_is_returned_wherever_it_is_paid_for() {
    let store = store_with(100_000, 1000);
    let mut free = EvokeRequest::new("user:Xolotl", 0);
    free.tokens_per_vector = 0;
    let ctx = evoke(&Ieee, &store, &free, d(0.0)).unwrap();
    assert_eq!((ctx.vectors_returned, ctx.anomalies_included, ctx.token_estimate), (1, 0, 0));
    assert_eq!(f(ctx.compression_ratio(&Ieee)), 100_000.0);
    let u = evoke_unified(
        &Ieee,
        &store,
        &FactStore::new(),
        &free,
        &v(&[1.0, 0.0]),
        0,
        d(0.0),
        &approx_token_count,
    );
    assert_eq!(u.gist.unwrap().vectors_returned, 1);
    assert_eq!(u.total_tokens, 0);

    for (budget, vectors) in [(23, 0), (24, 1), (47, 1), (48, 2)] {
        let ctx = evoke(&Ieee, &store, &EvokeRequest::new("user:Xolotl", budget), d(0.0)).unwrap();
        assert_eq!(ctx.vectors_returned, vectors, "budget {budget}");
        assert_eq!(ctx.token_estimate, vectors * 24);
    }
}

#[test]
fn before_its_last_touch_a_trace_weighs_what_it_weighs_at_it() {
    let mut t = EntropyTrace::new(&Ieee, d(0.8), d(HALF_DAY), d(100.0));
    t.reinforce(&Ieee, d(500.0), d(0.2));
    let at = t.weight(&Ieee, d(500.0));
    for now in [499.0, 100.0, 0.0, -0.0, -1e9, f64::NEG_INFINITY] {
        assert_eq!(f(t.delta_t(&Ieee, d(now))), 0.0);
        assert_eq!(t.weight(&Ieee, d(now)), at);
    }
    assert!(f(t.weight(&Ieee, d(501.0))) < f(at));
}

#[test]
fn touches_only_slow_forgetting_down_and_gain_less_and_less() {
    let mut t = EntropyTrace::new(&Ieee, d(1.0), d(HALF_DAY), d(0.0));
    let start = f(t.lambda);
    let (mut rate, mut gained) = (start, f64::INFINITY);
    for (i, share) in [0.0, 0.5, 0.1, 0.999, 0.999, 0.0].into_iter().enumerate() {
        let had = f(t.reinforcement);
        t.reinforce(&Ieee, d(i as f64), d(share));
        let step = f(t.reinforcement) - had;
        assert!(step < gained && step <= 1.0);
        assert!(f(t.lambda) <= rate && t.lambda.bits >= entropy::LAMBDA_FLOOR);
        (rate, gained) = (f(t.lambda), step);
    }
    // A rate below the floor is raised to it, and no further.
    let mut slow = t;
    slow.lambda = d(-1.0);
    slow.reinforce(&Ieee, d(9.0), d(0.3));
    assert_eq!(slow.lambda.bits, entropy::LAMBDA_FLOOR);
}

#[test]
fn an_infinite_rate_hinders_only_the_birth_of_modes() {
    let mut store = store_with(10, 0);
    let mut a = store.get("user:Xolotl").unwrap().clone();
    a.trace.lambda = d(f64::INFINITY);
    store = ArchetypeStore::new();
    store.insert(a);
    store.imprint(&Ieee, &iv("user:Xolotl", &[0.0, 1.0], 5), Resilience::High, d(1.0));
    let a = store.get("user:Xolotl").unwrap();
    assert_eq!(a.represented, 15);
    assert_eq!(f(a.trace.lambda), f64::INFINITY);
}

#[test]
fn a_frozen_archetype_hinders_only_the_dreams_of_its_subject() {
    let mut rt = runtime();
    rt.perceive(seen("frozen", &[1.0, 0.0], 1.0, HF, 0.0));
    rt.breathe(&["frozen"], d(0.0));
    let mut a = rt.long_term().get("frozen").unwrap().clone();
    a.trace.lambda = d(0.0);
    let mut restored = ArchetypeStore::new();
    restored.insert(a);
    *rt.long_term_mut() = restored;
    rt.perceive(seen("other", &[1.0, 0.0], 1.0, HF, 0.0));
    assert!(!rt.ready(&["other", "frozen"]));
    assert!(rt.ready(&["other"]));
    assert_eq!(rt.breathe(&["other"], d(0.0)).distilled_subjects, 1);
    assert!(rt.evoke(&EvokeRequest::new("frozen", 800), d(1e12)).is_some(), "it never fades");
}

#[test]
fn a_weight_stays_between_nothing_and_the_charge() {
    let mut t = EntropyTrace::new(&Ieee, d(0.8), d(HALF_DAY), d(100.0));
    t.reinforce(&Ieee, d(500.0), d(0.2));
    let charge = 0.8 * (1.0 + 1.0);
    assert_eq!(f(t.weight(&Ieee, d(500.0))), charge);
    let mut last = charge;
    for now in [600.0, 1e4, 1e6, 1e9, f64::INFINITY] {
        let w = f(t.weight(&Ieee, d(now)));
        assert!((0.0..=last).contains(&w), "at {now}");
        last = w;
    }
    assert_eq!(last, 0.0);
}

#[test]
fn restoring_facts_restores_their_threshold() {
    let mut rt = runtime();
    assert_eq!(rt.facts_mut().theta_dedup(), rt.facts().theta_dedup());
    *rt.facts_mut() = FactStore::with_dedup(s(0.5));
    assert_eq!(g(rt.facts().theta_dedup()), 0.5);
    assert_eq!(learn(rt.facts_mut(), "u", "a", &[1.0, 0.0]), Remember::Inserted);
    assert_eq!(learn(rt.facts_mut(), "u", "b", &[0.6, 0.8]), Remember::Merged);
    assert_eq!(rt.facts().len(), 1);
}

#[test]
fn tests_and_prices_may_answer_as_they_like() {
    // Every other answer is yes, whatever is asked.
    let turn = std::cell::Cell::new(false);
    let alternate = |_: &Perception| {
        turn.set(!turn.get());
        turn.get()
    };
    let mut rt = runtime();
    for _ in 0..5 {
        rt.perceive(seen("u", &[1.0, 0.0], 1.0, HF, 0.0));
    }
    assert_eq!(rt.breathe_where(&["u"], d(0.0), &alternate).perceptions_absorbed, 3);
    turn.set(false);
    assert_eq!(rt.fade_where(&alternate), 3);
    assert_eq!(rt.short_term_len(), 2);

    let mut facts = FactStore::new();
    for (text, e) in [("a", [1.0, 0.0]), ("b", [0.6, 0.8]), ("c", [0.0, 1.0])] {
        learn(&mut facts, "u", text, &e);
    }
    let price = std::cell::Cell::new(0usize);
    let dearer = |_: &str| {
        price.set(price.get() + 2);
        price.get()
    };
    let u = evoke_unified(
        &Ieee,
        &ArchetypeStore::new(),
        &facts,
        &EvokeRequest::new("u", 7),
        &v(&[1.0, 0.0]),
        7,
        d(0.0),
        &dearer,
    );
    assert_eq!(u.facts.iter().map(|f| f.text.as_str()).collect::<Vec<_>>(), ["a", "b"]);
    assert_eq!((u.fact_tokens, price.get()), (6, 6), "2 and 4 are paid, 6 is too much");
}

#[test]
fn without_modes_everything_works_but_dreams() {
    let mut cfg = RuntimeConfig::default();
    cfg.distill.modes.max_modes = 0;
    let mut rt = CognitiveRuntime::new(cfg, Ieee);
    assert!(rt.ready(&["u", "v", "w"]), "there is nothing to dream of");
    assert_eq!(rt.breathe(&["u"], d(0.0)).distilled_subjects, 0);
    rt.perceive(seen("u", &[1.0, 0.0], 1.0, HF, 0.0));
    assert!(!rt.ready(&["u"]));
    assert!(rt.ready(&[]));
    assert!(rt.evoke(&EvokeRequest::new("u", 800), d(0.0)).is_none());
    assert!(rt.recall("u", &v(&[1.0, 0.0]), 3, d(0.0)).is_empty());
    assert_eq!(rt.fade_only(d(100.0 * HF), d(0.05)), 1);
    // Perceptions that cannot be averaged are refused before they are clustered.
    let odd = vec![seen("u", &[1.0, 0.0], 1.0, HF, 0.0), seen("u", &[1.0], 1.0, HF, 0.0)];
    assert!(distill(&Ieee, "u", &borrowed(&odd), cfg.distill).is_none());
}

#[test]
fn evoke_achieves_massive_compression() {
    let store = store_with(100_000, 5);
    let ctx = evoke(&Ieee, &store, &EvokeRequest::new("user:Xolotl", 800), d(0.0)).unwrap();
    assert_eq!(ctx.represented, 100_000);
    assert!(f(ctx.compression_ratio(&Ieee)) > 1000.0, "compression >> 1000:1");
}

#[test]
fn evoke_reports_per_mode_drift() {
    let mut store = ArchetypeStore::new();
    let ps1: Vec<Perception> = (0..6).map(|_| acted("x", &[1.0, 0.0])).collect();
    store.imprint(
        &Ieee,
        &distill(&Ieee, "u", &borrowed(&ps1), DistillConfig::default()).unwrap(),
        Resilience::High,
        d(0.0),
    );
    let ps2: Vec<Perception> = (0..6).map(|_| acted("x", &[0.6, 0.8])).collect();
    store.imprint(
        &Ieee,
        &distill(&Ieee, "u", &borrowed(&ps2), DistillConfig::default()).unwrap(),
        Resilience::High,
        d(1.0),
    );
    let ctx = evoke(&Ieee, &store, &EvokeRequest::new("u", 800), d(1.0)).unwrap();
    assert_eq!(ctx.mode_drifts.len(), 1, "one live mode → one per-mode trajectory");
    assert_eq!(ctx.mode_drifts[0].0, "x");
    assert!(g(ctx.mode_drifts[0].1) > 0.0, "mode drifted from its origin: {:?}", ctx.mode_drifts);
}

/// An arc of four milestones, at ticks 0, 100, 200 and 300.
fn store_with_arc() -> ArchetypeStore {
    let mut store = ArchetypeStore::new();
    let dirs: [&[f32]; 4] = [&[1.0, 0.0], &[0.8, 0.6], &[0.0, 1.0], &[-0.6, 0.8]];
    for (i, e) in dirs.iter().enumerate() {
        store.imprint(
            &Ieee,
            &IntentionVector {
                subject: "u".into(),
                centroid: v(e),
                anomalies: vec![],
                core_label: "dom".into(),
                anomaly_labels: vec![],
                absorbed: 10,
                redundant: 0,
                label_histogram: vec![("dom".into(), 10)],
                modes: vec![],
            },
            Resilience::High,
            d(i as f64 * 100.0),
        );
    }
    store
}

#[test]
fn resolution_point_returns_no_arc() {
    let store = store_with_arc();
    let req = EvokeRequest { arc_detail: ArcDetail::Omitted, ..EvokeRequest::new("u", 800) };
    let ctx = evoke(&Ieee, &store, &req, d(300.0)).unwrap();
    assert!(ctx.arc_points.is_empty(), "RESOLUTION point / snapshot ⇒ no arc");
}

#[test]
fn resolution_summary_caps_arc_points() {
    let store = store_with_arc();
    let full = evoke(&Ieee, &store, &EvokeRequest::new("u", 800), d(300.0)).unwrap();
    let req = EvokeRequest { arc_detail: ArcDetail::Summary, ..EvokeRequest::new("u", 800) };
    let summary = evoke(&Ieee, &store, &req, d(300.0)).unwrap();
    assert!(summary.arc_points.len() <= 4);
    assert!(summary.arc_points.len() <= full.arc_points.len());
    assert_eq!(full.arc_points.len(), 4);
}

#[test]
fn span_window_filters_old_milestones() {
    let store = store_with_arc();
    let req = EvokeRequest { since: Some(d(150.0)), ..EvokeRequest::new("u", 800) };
    let ctx = evoke(&Ieee, &store, &req, d(300.0)).unwrap();
    assert!(ctx.arc_points.iter().all(|(t, _)| f(*t) >= 150.0), "{:?}", ctx.arc_points);
    assert_eq!(ctx.arc_points.len(), 2);
}

#[test]
fn thinned_arc_keeps_its_ends() {
    let mut store = ArchetypeStore::new();
    for i in 0..20 {
        store.imprint(&Ieee, &iv("u", &[1.0, i as f32], 10), Resilience::High, d(i as f64));
    }
    let req = EvokeRequest { arc_detail: ArcDetail::Summary, ..EvokeRequest::new("u", 800) };
    let ctx = evoke(&Ieee, &store, &req, d(20.0)).unwrap();
    assert_eq!(ctx.arc_points.len(), 4);
    assert_eq!(f(ctx.arc_points[0].0), 0.0);
    assert_eq!(f(ctx.arc_points[3].0), 19.0);
}

#[test]
fn domain_arcs_capture_per_domain_reversal() {
    let cycles = [
        vec![("yoga".to_string(), 7usize), ("trail".to_string(), 3)],
        vec![("yoga".to_string(), 2), ("trail".to_string(), 8)],
        vec![("yoga".to_string(), 1), ("trail".to_string(), 9)],
        vec![("yoga".to_string(), 6), ("trail".to_string(), 4)],
    ];
    let mut store = ArchetypeStore::new();
    for (i, hist) in cycles.iter().enumerate() {
        let absorbed: usize = hist.iter().map(|(_, c)| c).sum();
        store.imprint(
            &Ieee,
            &IntentionVector {
                subject: "u".into(),
                centroid: v(&[1.0, 0.0]),
                anomalies: vec![],
                core_label: hist[0].0.clone(),
                anomaly_labels: vec![],
                absorbed,
                redundant: 0,
                label_histogram: hist.clone(),
                modes: vec![],
            },
            Resilience::High,
            d(i as f64 * 100.0),
        );
    }
    let ctx = evoke(&Ieee, &store, &EvokeRequest::new("u", 800), d(400.0)).unwrap();
    let series = |label: &str| -> Vec<f32> {
        let (_, s) = ctx.domain_arcs.iter().find(|(l, _)| l == label).expect("a series");
        s.iter().map(|x| g(*x)).collect()
    };
    let yoga = series("yoga");
    assert!(yoga[0] > 0.5 && yoga[1] < 0.3 && yoga[3] > 0.4, "yoga reversal: {yoga:?}");
    let trail = series("trail");
    assert!(trail[0] < 0.4 && trail[2] > 0.8, "trail rising: {trail:?}");
    // Seven of ten, one of five, one of ten, three of five.
    assert_eq!(yoga, vec![0.7, 0.2, 0.1, 0.6]);
}

#[test]
fn approx_token_count_counts_words() {
    assert_eq!(approx_token_count(""), 0);
    assert_eq!(approx_token_count("one"), 1);
    assert_eq!(approx_token_count("  one  two\tthree\n"), 3);
    assert_eq!(approx_token_count("a b\u{00a0}c\u{2003}d"), 4);
}

// Episodic memory.

#[test]
fn dedup_collapses_near_identical_facts_and_reinforces() {
    let mut fs = FactStore::new();
    let mut buy = |now: f64| {
        fs.remember(
            &Ieee,
            "u",
            "bought running shoes",
            v(&[1.0, 0.0]),
            "agentA",
            d(1.0),
            d(DAY),
            d(now),
        )
    };
    assert_eq!(buy(0.0), Remember::Inserted);
    assert_eq!(buy(1.0), Remember::Merged);
    assert_eq!(fs.len(), 1, "the repeated fact does not inflate the store");
    assert!(f(fs.iter()[0].trace.reinforcement) > 0.0, "repetition consolidates");
}

#[test]
fn distinct_facts_are_kept_separate() {
    let mut fs = FactStore::new();
    learn(&mut fs, "u", "loves noir films", &[1.0, 0.0]);
    learn(&mut fs, "u", "allergic to peanuts", &[0.0, 1.0]);
    assert_eq!(fs.len(), 2, "distinct facts do not collapse");
}

#[test]
fn recall_returns_the_relevant_fact_verbatim() {
    let mut fs = FactStore::new();
    learn(&mut fs, "u", "allergic to peanuts", &[0.0, 1.0]);
    learn(&mut fs, "u", "drives a red car", &[1.0, 0.0]);
    let hits = fs.recall(&Ieee, "u", &v(&[0.0, 1.0]), 1, d(0.0), theta());
    assert_eq!(hits.len(), 1);
    assert_eq!(hits[0].text, "allergic to peanuts");
}

#[test]
fn recall_ranks_fresh_over_stale_at_equal_relevance() {
    let half = 30.0 * DAY;
    let mut fs = FactStore::new();
    fs.remember(&Ieee, "u", "stale fact", v(&[1.0, 0.0]), "a", d(1.0), d(half), d(0.0));
    fs.remember(&Ieee, "u", "fresh fact", v(&[0.92, 0.392]), "a", d(1.0), d(half), d(half));
    let hits = fs.search(&Ieee, "u", &v(&[0.96, 0.2]), 2, d(half), theta());
    assert_eq!(hits.len(), 2, "both still alive");
    assert_eq!(hits[0].1.text, "fresh fact", "at comparable relevance, the more alive fact comes first");
}

#[test]
fn recalling_a_fact_resets_its_decay() {
    let half = 30.0 * DAY;
    let mut fs = FactStore::new();
    fs.remember(&Ieee, "u", "recalled fact", v(&[1.0, 0.0]), "a", d(1.0), d(half), d(0.0));
    fs.remember(&Ieee, "u", "forgotten fact", v(&[0.0, 1.0]), "a", d(1.0), d(half), d(0.0));
    let hits = fs.recall(&Ieee, "u", &v(&[1.0, 0.0]), 1, d(half), theta());
    assert_eq!(hits[0].text, "recalled fact");
    let faded = fs.fade(&Ieee, d(half * 5.0), theta());
    assert_eq!(faded, 1, "only the fact that was never recalled fades");
    assert_eq!(fs.len(), 1);
    assert_eq!(fs.iter()[0].text, "recalled fact");
}

#[test]
fn fade_sweeps_decayed_facts() {
    let mut fs = FactStore::new();
    fs.remember(&Ieee, "u", "fleeting", v(&[1.0, 0.0]), "a", d(0.2), d(DAY), d(0.0));
    fs.remember(&Ieee, "u", "durable", v(&[0.0, 1.0]), "a", d(1.0), d(DAY * 100.0), d(0.0));
    let faded = fs.fade(&Ieee, d(DAY * 5.0), theta());
    assert_eq!(faded, 1, "only the fragile fact fades");
    assert_eq!(fs.iter()[0].text, "durable");
}

#[test]
fn recall_isolates_subjects() {
    let mut fs = FactStore::new();
    learn(&mut fs, "alice", "alice secret", &[1.0, 0.0]);
    learn(&mut fs, "bob", "bob secret", &[1.0, 0.0]);
    assert_eq!(fs.len(), 2);
    let hits = fs.recall(&Ieee, "alice", &v(&[1.0, 0.0]), 5, d(0.0), theta());
    assert_eq!(hits.len(), 1);
    assert_eq!(hits[0].text, "alice secret", "facts from one subject do not leak to another");
}

#[test]
fn search_reinforces_nothing() {
    let mut fs = FactStore::new();
    learn(&mut fs, "u", "a fact", &[1.0, 0.0]);
    assert_eq!(fs.search(&Ieee, "u", &v(&[1.0, 0.0]), 1, d(5.0), theta()).len(), 1);
    assert_eq!(f(fs.iter()[0].trace.reinforcement), 0.0);
    assert_eq!(fs.alive_for(&Ieee, "u", d(0.0), theta()).len(), 1);
    assert_eq!(fs.alive_for(&Ieee, "v", d(0.0), theta()).len(), 0);
}

// Reflection.

fn milestone(label: &str, hist: &[(&str, usize)]) -> ArcMilestone {
    ArcMilestone {
        at: d(0.0),
        direction: v(&[1.0, 0.0]),
        absorbed: hist.iter().map(|(_, c)| c).sum(),
        label: label.to_string(),
        label_histogram: hist.iter().map(|(l, c)| (l.to_string(), *c)).collect(),
    }
}

fn arc_of(labels: &[&str]) -> Vec<ArcMilestone> {
    labels
        .iter()
        .enumerate()
        .map(|(i, l)| ArcMilestone {
            at: d(i as f64),
            direction: v(&[1.0, 0.0]),
            absorbed: 1,
            label: l.to_string(),
            label_histogram: vec![(l.to_string(), 1)],
        })
        .collect()
}

#[test]
fn modes_predict_held_out_better_than_centroid() {
    let mut ps = Vec::new();
    for _ in 0..20 {
        ps.push(acted("A", &[1.0, 0.0]));
        ps.push(acted("B", &[0.0, 1.0]));
    }
    let r = predictive_compression(&Ieee, &borrowed(&ps), d(0.7), DistillConfig::default()).unwrap();
    assert!(r.held_out > 0);
    assert_eq!(r.held_out, 12);
    assert!(f(r.modal) > f(r.centroid) + 0.2, "modes predict the future better than the mean: {r:?}");
}

#[test]
fn unimodal_modes_match_centroid() {
    let ps: Vec<Perception> = (0..20).map(|i| acted("x", &[1.0, 0.01 * i as f32])).collect();
    let r = predictive_compression(&Ieee, &borrowed(&ps), d(0.7), DistillConfig::default()).unwrap();
    assert!((f(r.modal) - f(r.centroid)).abs() < 0.1, "unimodal: modes ≈ centroid: {r:?}");
}

#[test]
fn predictive_compression_needs_data() {
    let one = acted("a", &[1.0, 0.0]);
    assert!(predictive_compression(&Ieee, &vec![&one], d(0.7), DistillConfig::default()).is_none());
}

#[test]
fn reflect_finds_dominant_transition() {
    let arc = arc_of(&["trail", "yoga", "trail", "yoga", "climb"]);
    let insights = reflect(&Ieee, &arc);
    assert!(
        insights.iter().any(|i| matches!(i, Insight::Transition { from, to, support }
            if from == "trail" && to == "yoga" && *support == 2)),
        "{insights:?}"
    );
}

#[test]
fn reflect_breaks_ties_by_the_dictionary() {
    let insights = reflect(&Ieee, &arc_of(&["b", "c", "a"]));
    assert!(matches!(&insights[0], Insight::Transition { from, to, support }
        if from == "b" && to == "c" && *support == 1));
    assert!(reflect(&Ieee, &arc_of(&["b"])).is_empty());
    assert!(reflect(&Ieee, &arc_of(&["b", "b", ""])).is_empty());
}

#[test]
fn reflect_detects_revival() {
    let arc = vec![
        milestone("yoga", &[("yoga", 8), ("trail", 2)]),
        milestone("trail", &[("yoga", 1), ("trail", 9)]),
        milestone("yoga", &[("yoga", 7), ("trail", 3)]),
    ];
    let insights = reflect(&Ieee, &arc);
    assert!(
        insights.iter().any(|i| matches!(i, Insight::Revival { domain } if domain == "yoga")),
        "{insights:?}"
    );
    assert!(
        !insights.iter().any(|i| matches!(i, Insight::Revival { domain } if domain == "trail")),
        "trail does not revive: {insights:?}"
    );
}

#[test]
fn transition_prediction_beats_marginal() {
    let arc = arc_of(&["A", "B", "A", "B", "A", "B"]);
    assert_eq!(predict_next(&arc, "A").as_deref(), Some("B"), "transition predicts B after A");
    assert_eq!(predict_next(&arc, "C"), None);
}

#[test]
fn insights_materialize_along_their_behaviour() {
    let mut store = ArchetypeStore::new();
    store.imprint(&Ieee, &iv("u", &[0.0, 1.0], 3), Resilience::High, d(0.0));
    let a = store.get("u").unwrap();
    let there = Insight::Revival { domain: "u-core".to_string() };
    let (text, direction) = materialize(a, &there).unwrap();
    assert_eq!(text, "recurring behaviour (revival): u-core");
    assert_eq!(direction, v(&[0.0, 1.0]));
    assert!(materialize(a, &Insight::Revival { domain: "elsewhere".to_string() }).is_none());
}

// The runtime.

#[test]
fn full_cycle_perceive_breathe_evoke() {
    let mut rt = runtime();
    for _ in 0..1000 {
        rt.perceive(seen("user:Xolotl", &[1.0, 0.0], 1.0, HF, 0.0));
    }
    for _ in 0..3 {
        rt.perceive(seen("user:Xolotl", &[0.0, 1.0], 1.0, HF, 0.0));
    }
    assert_eq!(rt.short_term_len(), 1003);
    assert!(rt.ready(&["user:Xolotl"]));

    let report = rt.breathe(&["user:Xolotl"], d(0.0));
    assert_eq!(report.distilled_subjects, 1);
    assert_eq!(report.perceptions_absorbed, 1003);
    assert_eq!(rt.long_term_len(), 1, "one consolidated essence");

    let ctx = rt.evoke(&EvokeRequest::new("user:Xolotl", 800), d(0.0)).unwrap();
    assert_eq!(ctx.represented, 1003);
    assert!(ctx.token_estimate <= 800);
    assert!(f(ctx.compression_ratio(&Ieee)) > 100.0);
}

#[test]
fn unified_runtime_evoke_spans_both_layers() {
    let mut rt = runtime();
    for _ in 0..100 {
        rt.perceive(seen("user:X", &[1.0, 0.0], 1.0, 86_400.0, 0.0));
    }
    rt.breathe(&["user:X"], d(0.0));
    rt.remember(
        "user:X",
        "prefers window seat",
        v(&[0.0, 1.0]),
        "agent",
        d(1.0),
        d(86_400.0),
        d(0.0),
    );
    let req = EvokeRequest::new("user:X", 800);
    let u = rt.evoke_unified(&req, &v(&[0.0, 1.0]), 100, d(0.0), &approx_token_count);
    assert!(u.gist.is_some(), "character from layer-2");
    assert_eq!(u.facts.len(), 1, "nominal from layer-1");
    assert_eq!(u.facts[0].text, "prefers window seat");
    assert!(u.total_tokens <= 800);
}

/// Two cycles with different behaviours: an arc from trail to yoga.
fn moved_on() -> CognitiveRuntime<Ieee> {
    let mut rt = runtime();
    for _ in 0..5 {
        rt.perceive(seen("u", &[1.0, 0.0], 1.0, 1.0, 0.0).with_trait("act", "trail"));
    }
    rt.breathe(&["u"], d(0.0));
    for _ in 0..5 {
        rt.perceive(seen("u", &[0.0, 1.0], 1.0, 86_400.0, 0.0).with_trait("act", "yoga"));
    }
    rt.breathe(&["u"], d(100.0));
    rt
}

#[test]
fn runtime_reflect_surfaces_arc_transition() {
    let rt = moved_on();
    let insights = rt.reflect("u");
    assert!(
        insights.iter().any(|i| matches!(i, Insight::Transition { from, to, .. }
            if from == "trail" && to == "yoga")),
        "reflection synthesises the arc transition: {insights:?}"
    );
    assert!(rt.reflect("ghost").is_empty(), "no archetype, no insights");
}

#[test]
fn dream_reflect_materializes_insights_as_recallable_facts() {
    let mut rt = moved_on();
    let stored = rt.dream_reflect("u", d(100.0));
    assert_eq!(stored, 1, "the trail→yoga transition was stored as a fact");
    let hits = rt.recall("u", &v(&[0.0, 1.0]), 1, d(100.0));
    assert_eq!(hits.len(), 1);
    assert!(hits[0].text.contains("trail → yoga"), "the insight is retrieved: {}", hits[0].text);
    assert_eq!(rt.dream_reflect("ghost", d(100.0)), 0);
}

#[test]
fn noise_fades_after_breathing() {
    let mut rt = runtime();
    rt.perceive(seen("user:X", &[1.0, 0.0], 0.2, HF, 0.0));
    let report = rt.breathe(&["user:X"], d(HF * 5.0));
    assert_eq!(report.faded, 1);
    assert_eq!(rt.short_term_len(), 0);
}

#[test]
fn a_second_breath_evolves_the_same_archetype() {
    let mut rt = runtime();
    for _ in 0..4 {
        rt.perceive(seen("a", &[1.0, 0.0], 1.0, 1.0, 0.0));
        rt.perceive(seen("b", &[0.0, 1.0], 1.0, 1.0, 0.0));
    }
    let report = rt.breathe(&["a", "b", "nobody"], d(0.0));
    assert_eq!(report.distilled_subjects, 2);
    assert_eq!(report.perceptions_absorbed, 8);
    rt.perceive(seen("a", &[1.0, 0.0], 1.0, 1.0, 50.0));
    rt.breathe(&["a"], d(50.0));
    assert_eq!(rt.long_term_len(), 2);
    assert_eq!(rt.long_term().get("a").unwrap().represented, 5);
    assert_eq!(rt.long_term().get("b").unwrap().represented, 4, "others are left as they were");
}

#[test]
fn tests_narrow_breath_and_sweep() {
    let mut rt = runtime();
    rt.perceive(acted("keep", &[1.0, 0.0]));
    rt.perceive(acted("drop", &[0.0, 1.0]));
    let kept = |p: &Perception| p.representative_text() == "keep";
    let report = rt.breathe_where(&["u"], d(0.0), &kept);
    assert_eq!(report.perceptions_absorbed, 1);
    assert_eq!(rt.short_term_len(), 2);
    assert_eq!(rt.fade_where(&kept), 1);
    assert_eq!(rt.fade_only(d(HF * 50.0), theta()), 1);
    assert!(rt.consolidate("u", d(1.0), d(0.2)));
    assert!(!rt.consolidate("ghost", d(1.0), d(0.2)));
}

#[test]
fn facts_of_a_runtime_fade() {
    let mut rt = runtime();
    rt.remember("u", "a", v(&[1.0, 0.0]), "x", d(1.0), d(DAY), d(0.0));
    assert_eq!(rt.facts().len(), 1);
    assert_eq!(rt.fade_facts(d(DAY)), 0);
    assert_eq!(rt.fade_facts(d(DAY * 10.0)), 1);
    assert!(rt.facts().is_empty());
}
