//! What surrounds the engine: the cache, the index, the organism, snapshots.

use instant_distance::Builder;
use instant_distance::HnswMap;
use instant_distance::Point;
use instant_distance::Search;
use letheo::archetype::ArchetypeStore;
use letheo::archetype::Resilience;
use letheo::arithmetic::Arithmetic;
use letheo::cache::CacheStats;
use letheo::cache::CachingProvider;
use letheo::cache::EmbeddingCache;
use letheo::entropy::DEFAULT_THETA_FADE;
use letheo::evoke::EvokeRequest;
use letheo::factstore::FactStore;
use letheo::index::distance;
use letheo::index::normalize;
use letheo::index::AnnIndex;
use letheo::index::FactRef;
use letheo::index::ModeRef;
use letheo::index::Neighbours;
use letheo::index::Retriever;
use letheo::number::Double;
use letheo::number::Single;
use letheo::number::Vector;
use letheo::organism::Answer;
use letheo::organism::AsyncConfig;
use letheo::organism::BreathCause;
use letheo::organism::Command;
use letheo::organism::Organism;
use letheo::organism::Stats;
use letheo::organism::Stopped;
use letheo::perception::Perception;
use letheo::persist::fnv1a;
use letheo::persist::rebuild;
use letheo::persist::restore_order;
use letheo::persist::snapshot_filename;
use letheo::persist::snapshot_named;
use letheo::persist::take_snapshots;
use letheo::persist::ArchetypeDto;
use letheo::persist::FactStoreDto;
use letheo::persist::FACTS_FILENAME;
use letheo::persist::SNAPSHOT_VERSION;
use letheo::provider::Provider;
use letheo::provider::EMBED_DIM;
use letheo::runtime::BreathReport;
use letheo::runtime::CognitiveRuntime;
use letheo::runtime::RuntimeConfig;
use letheo::synthesis::IntentionVector;
use std::cell::Cell;
use std::collections::HashSet;

/// The floating-point unit of the machine.
#[derive(Clone, Copy)]
struct Ieee;

impl Arithmetic for Ieee {
    fn add64(&self, x: Double, y: Double) -> Double {
        d(f(x) + f(y))
    }
    fn sub64(&self, x: Double, y: Double) -> Double {
        d(f(x) - f(y))
    }
    fn mul64(&self, x: Double, y: Double) -> Double {
        d(f(x) * f(y))
    }
    fn div64(&self, x: Double, y: Double) -> Double {
        d(f(x) / f(y))
    }
    fn add32(&self, x: Single, y: Single) -> Single {
        s(g(x) + g(y))
    }
    fn sub32(&self, x: Single, y: Single) -> Single {
        s(g(x) - g(y))
    }
    fn mul32(&self, x: Single, y: Single) -> Single {
        s(g(x) * g(y))
    }
    fn div32(&self, x: Single, y: Single) -> Single {
        s(g(x) / g(y))
    }
    fn sqrt32(&self, x: Single) -> Single {
        s(g(x).sqrt())
    }
    fn exp64(&self, x: Double) -> Double {
        d(f(x).exp())
    }
    fn widen(&self, x: Single) -> Double {
        d(f64::from(g(x)))
    }
    fn count64(&self, x: u64) -> Double {
        d(x as f64)
    }
    fn count32(&self, x: u64) -> Single {
        s(x as f32)
    }
    fn round64(&self, x: Double) -> u64 {
        f(x).round() as u64
    }
    fn parse64(&self, text: &str) -> Option<Double> {
        text.parse::<f64>().ok().map(d)
    }
    fn fixed64(&self, x: Double, digits: usize) -> String {
        format!("{:.*}", digits, f(x))
    }
    fn cosine(&self, x: &Vector, y: &Vector) -> Single {
        let dot: f32 = x.iter().zip(y).map(|(a, b)| g(*a) * g(*b)).sum();
        let nx: f32 = x.iter().map(|a| g(*a) * g(*a)).sum::<f32>().sqrt();
        let ny: f32 = y.iter().map(|a| g(*a) * g(*a)).sum::<f32>().sqrt();
        let c = dot / (nx * ny);
        if nx * ny == 0.0 || c.is_nan() {
            s(0.0)
        } else {
            s(c.clamp(-1.0, 1.0))
        }
    }
    fn mean(&self, rows: &Vec<Vector>) -> Vector {
        let mut out = vec![0.0f32; rows[0].len()];
        for row in rows {
            for (o, x) in out.iter_mut().zip(row) {
                *o += g(*x);
            }
        }
        out.iter().map(|o| s(*o / rows.len() as f32)).collect()
    }
}

fn d(x: f64) -> Double {
    Double { bits: if x.is_nan() { f64::NAN.to_bits() } else { x.to_bits() } }
}

fn f(x: Double) -> f64 {
    f64::from_bits(x.bits)
}

fn s(x: f32) -> Single {
    Single { bits: if x.is_nan() { f32::NAN.to_bits() } else { x.to_bits() } }
}

fn g(x: Single) -> f32 {
    f32::from_bits(x.bits)
}

fn v(xs: &[f32]) -> Vector {
    xs.iter().map(|x| s(*x)).collect()
}

/// A deterministic engine: each token of a text adds to a bucket that its hash picks.
struct MockProvider {
    dim: usize,
}

impl MockProvider {
    fn new() -> Self {
        Self { dim: EMBED_DIM }
    }

}

impl Provider for MockProvider {
    fn dim(&self) -> usize {
        self.dim
    }

    fn embed(&self, text: &str) -> Vector {
        let mut out = vec![0.0f32; self.dim];
        for token in text.split_whitespace() {
            let h = fnv1a(&token.to_lowercase());
            let bucket = (h % self.dim as u64) as usize;
            out[bucket] += if (h >> 63) & 1 == 1 { -1.0 } else { 1.0 };
        }
        normalize(&Ieee, &v(&out))
    }
}

fn theta() -> Double {
    Double { bits: DEFAULT_THETA_FADE }
}

// The cache.

/// An engine that counts how often it is asked.
struct CountingProvider {
    calls: Cell<usize>,
}

impl CountingProvider {
    fn new() -> Self {
        Self { calls: Cell::new(0) }
    }
    fn calls(&self) -> usize {
        self.calls.get()
    }
}

impl Provider for CountingProvider {
    fn dim(&self) -> usize {
        2
    }
    fn embed(&self, text: &str) -> Vector {
        self.calls.set(self.calls.get() + 1);
        v(&[text.len() as f32, text.bytes().next().unwrap_or(0) as f32])
    }
}

#[test]
fn repeated_text_is_embedded_once() {
    let mut p = CachingProvider::new(CountingProvider::new());
    let a = p.embed("purchase shoes");
    let b = p.embed("purchase shoes");
    let c = p.embed("purchase shoes");
    assert_eq!(a, b);
    assert_eq!(b, c);
    assert_eq!(p.inner().calls(), 1, "embedded only once despite 3 queries");
    let s = p.stats();
    assert_eq!(s.misses, 1);
    assert_eq!(s.hits, 2);
    assert_eq!(s.entries, 1);
}

#[test]
fn distinct_texts_are_separate_entries() {
    let mut p = CachingProvider::new(CountingProvider::new());
    let x = p.embed("alpha");
    let y = p.embed("beta");
    assert_ne!(x, y);
    assert_eq!(p.inner().calls(), 2);
    assert_eq!(p.stats().entries, 2);
}

#[test]
fn hit_rate_reflects_usage() {
    let mut p = CachingProvider::new(CountingProvider::new());
    for _ in 0..9 {
        p.embed("same");
    }
    p.embed("other");
    let s = p.stats();
    assert_eq!(s.hits, 8);
    assert_eq!(s.misses, 2);
    assert!((f(s.hit_rate(&Ieee)) - 0.8).abs() < 1e-9);
    let untouched = CacheStats { hits: 0, misses: 0, entries: 0 };
    assert_eq!(f(untouched.hit_rate(&Ieee)), 1.0);
}

#[test]
fn clear_empties_cache_but_keeps_counters() {
    let mut p = CachingProvider::new(CountingProvider::new());
    p.embed("x");
    p.clear();
    p.embed("x"); // recomputed after clearing
    assert_eq!(p.inner().calls(), 2);
    assert_eq!(p.stats().misses, 2);
    assert_eq!(p.stats().entries, 1);
}

#[test]
fn dim_delegates_to_inner() {
    let p = CachingProvider::new(CountingProvider::new());
    assert_eq!(p.dim(), 2);
    assert_eq!(p.summarize(&["a", "b"]), "a · b");
}

#[test]
fn storing_a_text_again_replaces_its_embedding() {
    let mut c = EmbeddingCache::new();
    assert_eq!(c.lookup("t"), None);
    c.store("t", v(&[1.0]));
    c.store("u", v(&[2.0]));
    c.store("t", v(&[3.0]));
    assert_eq!(c.lookup("t"), Some(v(&[3.0])));
    assert_eq!(c.lookup("u"), Some(v(&[2.0])));
    assert_eq!(c.stats(), CacheStats { hits: 2, misses: 1, entries: 2 });
}

// The index.

#[derive(Clone)]
struct UnitPoint(Vector);

impl Point for UnitPoint {
    fn distance(&self, other: &Self) -> f32 {
        g(distance(&Ieee, &self.0, &other.0))
    }
}

/// A graph of navigable small worlds.
struct Graph<V> {
    map: HnswMap<UnitPoint, V>,
}

impl<V: Clone> Neighbours for Graph<V> {
    type Value = V;

    fn build(points: Vec<(Vector, V)>) -> Self {
        let (ps, vs): (Vec<UnitPoint>, Vec<V>) =
            points.into_iter().map(|(p, value)| (UnitPoint(p), value)).unzip();
        // One layer is filled by one thread: every run has the same graph.
        Graph { map: Builder::default().ml(0.0).seed(0x1E7E0).build(ps, vs) }
    }

    fn search(&self, query: &Vector) -> Vec<V> {
        let mut search = Search::default();
        self.map
            .search(&UnitPoint(query.clone()), &mut search)
            .map(|item| item.value.clone())
            .collect()
    }
}

fn cosine(a: &[f32], b: &[f32]) -> f32 {
    g(Ieee.cosine(&v(a), &v(b)))
}

/// Deterministic pseudo-random vector.
fn pseudo(dim: usize, seed: u64) -> Vec<f32> {
    let mut s = seed.wrapping_add(0x9E37);
    (0..dim)
        .map(|_| {
            s = s.wrapping_mul(6364136223846793005).wrapping_add(1442695040888963407);
            ((s >> 33) as f32 / u32::MAX as f32) * 2.0 - 1.0
        })
        .collect()
}

#[test]
fn ann_recall_at_k_matches_flat_oracle() {
    let dim = 48;
    let k = 10;
    let points: Vec<(Vec<f32>, ModeRef)> = (0..800)
        .map(|i| (pseudo(dim, i as u64), ModeRef { subject: format!("s{i}"), mode: 0 }))
        .collect();
    let index: AnnIndex<Graph<ModeRef>> = AnnIndex::from_points(
        &Ieee,
        points.iter().map(|(p, r)| (v(p), r.clone())).collect(),
    );
    let (mut hits, mut total) = (0usize, 0usize);
    for q in 0..60 {
        let query = pseudo(dim, 1_000_000 + q);
        let mut exact: Vec<(f32, &ModeRef)> =
            points.iter().map(|(c, r)| (cosine(c, &query), r)).collect();
        exact.sort_by(|a, b| b.0.partial_cmp(&a.0).unwrap());
        let exact_set: HashSet<&ModeRef> = exact.iter().take(k).map(|(_, r)| *r).collect();
        hits += index
            .resonate(&Ieee, &v(&query), k)
            .iter()
            .filter(|r| exact_set.contains(r))
            .count();
        total += k;
    }
    let recall = hits as f64 / total as f64;
    assert!(recall >= 0.99, "recall@10 = {recall:.4} (target ≥ 0.99 vs exact Flat)");
}

#[test]
fn fact_index_recovers_the_relevant_fact() {
    let mut fs = FactStore::new();
    let mut learn = |subject: &str, text: &str, e: &[f32]| {
        fs.remember(&Ieee, subject, text, v(e), "t", d(1.0), d(86_400.0), d(0.0));
    };
    learn("u0", "peanuts allergy", &[1.0, 0.0, 0.0]);
    learn("u1", "red car", &[0.0, 1.0, 0.0]);
    learn("u2", "window seat", &[0.0, 0.0, 1.0]);
    let index: AnnIndex<Graph<FactRef>> = AnnIndex::build_facts(&Ieee, &fs);
    assert_eq!(index.len(), 3);
    let top = index.resonate(&Ieee, &v(&[0.1, 0.9, 0.0]), 1);
    assert_eq!(top[0], FactRef { subject: "u1".into(), position: 1 });
}

fn plain_iv(subject: &str, centroid: Vector) -> IntentionVector {
    IntentionVector {
        subject: subject.to_string(),
        centroid,
        anomalies: vec![],
        core_label: "x".into(),
        anomaly_labels: vec![],
        absorbed: 10,
        redundant: 0,
        label_histogram: vec![("x".into(), 10)],
        modes: vec![],
    }
}

fn store_of(n: usize, dim: usize) -> ArchetypeStore {
    let mut store = ArchetypeStore::new();
    for i in 0..n {
        let e = v(&pseudo(dim, i as u64));
        store.imprint(&Ieee, &plain_iv(&format!("user:{i}"), e), Resilience::High, d(0.0));
    }
    store
}

#[test]
fn retriever_flat_and_hnsw_paths_agree_on_top_subject() {
    let dim = 48;
    let store = store_of(120, dim);
    let mut flat: Retriever<Graph<ModeRef>> = Retriever::new(10_000); // 120 ≤ 10000
    let mut hnsw: Retriever<Graph<ModeRef>> = Retriever::new(0); //      120 > 0
    for q in 0..20 {
        let query = v(&pseudo(dim, 7_000 + q));
        let exact = flat.resonate_subjects(&Ieee, &store, &query, 1, d(0.0), theta());
        let found = hnsw.resonate_subjects(&Ieee, &store, &query, 1, d(0.0), theta());
        assert_eq!(exact, found, "Flat and HNSW agree on top subject (q={q})");
    }
}

#[test]
fn retriever_hnsw_filters_out_faded_subjects() {
    let dim = 8;
    let mut store = store_of(60, dim);
    let target = v(&pseudo(dim, 999));
    store.imprint(&Ieee, &plain_iv("user:faded", target.clone()), Resilience::Low, d(0.0));
    let mut hnsw: Retriever<Graph<ModeRef>> = Retriever::new(0);
    let later = d(200.0 * 86_400.0);
    let hits = hnsw.resonate_subjects(&Ieee, &store, &target, 5, later, theta());
    assert!(!hits.is_empty(), "there are live subjects to return");
    assert!(!hits.contains(&"user:faded".to_string()), "faded subject was filtered: {hits:?}");
    assert_eq!(hits.len(), 5);
    // While it is alive it comes first.
    let now = hnsw.resonate_subjects(&Ieee, &store, &target, 5, d(0.0), theta());
    assert_eq!(now[0], "user:faded");
}

#[test]
fn empty_index_is_well_defined() {
    let index: AnnIndex<Graph<ModeRef>> = AnnIndex::from_points(&Ieee, Vec::new());
    assert!(index.is_empty());
    assert!(index.resonate(&Ieee, &v(&[1.0, 0.0]), 5).is_empty());
}

/// A structure that answers every query with all its points, in the order it was given them.
struct Everything {
    values: Vec<ModeRef>,
}

impl Neighbours for Everything {
    type Value = ModeRef;

    fn build(points: Vec<(Vector, ModeRef)>) -> Self {
        Everything { values: points.into_iter().map(|(_, r)| r).collect() }
    }

    fn search(&self, _query: &Vector) -> Vec<ModeRef> {
        self.values.clone()
    }
}

#[test]
fn subjects_come_once_and_at_most_k() {
    let point = |subject: &str, mode: usize| {
        (v(&[1.0, 0.0]), ModeRef { subject: subject.to_string(), mode })
    };
    let index: AnnIndex<Everything> = AnnIndex::from_points(
        &Ieee,
        vec![point("a", 0), point("a", 1), point("b", 0), point("c", 0), point("b", 1)],
    );
    let q = v(&[1.0, 0.0]);
    assert_eq!(index.resonate_subjects(&Ieee, &q, 2), vec!["a", "b"]);
    assert_eq!(index.resonate_subjects(&Ieee, &q, 9), vec!["a", "b", "c"]);
    // One subject is sought among the first four points only.
    assert_eq!(index.resonate_subjects(&Ieee, &q, 1), vec!["a"]);
    assert!(index.resonate_subjects(&Ieee, &q, 0).is_empty());
    assert_eq!(index.resonate(&Ieee, &q, 3).len(), 3);
}

#[test]
fn the_index_is_rebuilt_when_the_count_changes() {
    let mut store = store_of(2, 4);
    let mut r: Retriever<Everything> = Retriever::new(0);
    let q = v(&[1.0, 0.0, 0.0, 0.0]);
    assert_eq!(r.resonate_subjects(&Ieee, &store, &q, 9, d(0.0), theta()), vec!["user:0", "user:1"]);
    store.imprint(&Ieee, &plain_iv("new", q.clone()), Resilience::High, d(0.0));
    assert_eq!(
        r.resonate_subjects(&Ieee, &store, &q, 9, d(0.0), theta()),
        vec!["user:0", "user:1", "new"]
    );
    r.invalidate();
    assert_eq!(r.resonate_subjects(&Ieee, &store, &q, 1, d(0.0), theta()), vec!["user:0"]);
}

#[test]
fn vectors_are_brought_to_unit_norm() {
    assert_eq!(normalize(&Ieee, &v(&[3.0, 4.0])), v(&[0.6, 0.8]));
    assert_eq!(normalize(&Ieee, &v(&[0.0, 0.0])), v(&[0.0, 0.0]));
    assert_eq!(g(distance(&Ieee, &v(&[0.0, 0.0]), &v(&[3.0, 4.0]))), 5.0);
}

// The organism.

fn cfg(watermark: usize) -> AsyncConfig {
    AsyncConfig { pressure_watermark: watermark, breath_interval: 10_000_000_000, ..AsyncConfig::default() }
}

fn alive(watermark: usize) -> Organism<MockProvider, Ieee> {
    Organism::new(MockProvider::new(), cfg(watermark), Ieee)
}

fn perception(subject: &str, e: &[f32]) -> Perception {
    Perception::new(&Ieee, subject, v(e), d(1.0), d(1.0e9), d(0.0))
}

fn tell(o: &mut Organism<MockProvider, Ieee>, cmd: Command) -> Answer {
    assert!(o.can_carry_out(&cmd));
    o.handle(cmd, d(0.0))
}

fn measure(o: &mut Organism<MockProvider, Ieee>) -> Stats {
    match tell(o, Command::Measure) {
        Answer::Measured(s) => s,
        other => panic!("expected metrics, got {other:?}"),
    }
}

fn breathe(o: &mut Organism<MockProvider, Ieee>) -> BreathReport {
    match tell(o, Command::Breathe { subjects: None }) {
        Answer::Breathed(r) => r,
        other => panic!("expected a report, got {other:?}"),
    }
}

#[test]
fn on_demand_breathe_consolidates() {
    let mut o = alive(0);
    for _ in 0..20 {
        tell(&mut o, Command::Perceive(perception("u:X", &[1.0, 0.0])));
    }
    let report = breathe(&mut o);
    assert_eq!(report.distilled_subjects, 1);
    assert_eq!(report.perceptions_absorbed, 20);
    match tell(&mut o, Command::Evoke { req: EvokeRequest::new("u:X", 800) }) {
        Answer::Evoked(Some(ctx)) => assert_eq!(ctx.represented, 20),
        other => panic!("expected an essence, got {other:?}"),
    }
}

#[test]
fn basal_breathing_runs_without_being_asked() {
    let mut o = alive(0);
    for _ in 0..5 {
        tell(&mut o, Command::Perceive(perception("u:Y", &[0.0, 1.0])));
    }
    assert_eq!(measure(&mut o).breaths, 0);
    assert_eq!(measure(&mut o).pending, 5);
    // The host's timer fires.
    let now = o.now(d(11.0));
    assert_eq!(f(now), 11.0);
    assert!(o.can_breathe());
    o.breathe_all(BreathCause::Basal, now);
    let s = measure(&mut o);
    assert!(s.breaths >= 1, "organism breathed on its own: {s:?}");
    assert_eq!(s.long_term_len, 1, "consolidated the subject without being asked");
    assert_eq!(s.breaths_basal, 1);
}

#[test]
fn backpressure_triggers_immediate_breath() {
    let mut o = alive(8);
    for _ in 0..8 {
        tell(&mut o, Command::Perceive(perception("u:Z", &[1.0, 0.0])));
    }
    let s = measure(&mut o);
    assert_eq!(s.breaths, 1, "pressure triggered a dream: {s:?}");
    assert_eq!(s.long_term_len, 1);
    assert_eq!(s.pending, 0, "pressure was released");
}

#[test]
fn breath_causes_are_counted_separately() {
    let mut o = alive(4);
    for _ in 0..4 {
        tell(&mut o, Command::Perceive(perception("u:A", &[1.0, 0.0])));
    }
    breathe(&mut o);
    let s = measure(&mut o);
    assert_eq!(s.breaths_pressure, 1, "{s:?}");
    assert_eq!(s.breaths_ondemand, 1, "{s:?}");
    assert_eq!(s.breaths_basal, 0);
    assert_eq!(s.breaths, 2);
}

#[test]
fn prometheus_render_is_well_formed() {
    let mut o = alive(0);
    for _ in 0..3 {
        tell(&mut o, Command::Perceive(perception("u:M", &[1.0, 0.0])));
    }
    breathe(&mut o);
    let text = measure(&mut o).render_prometheus();
    assert!(text.contains("# TYPE letheo_breaths_total counter"));
    assert!(text.contains("letheo_breaths_ondemand_total 1"));
    assert!(text.contains("# TYPE letheo_long_term_len gauge"));
    assert_eq!(text.lines().count(), 30);
}

#[test]
fn prometheus_render_is_exact() {
    let mut s = Stats::default();
    s.breaths = 1234;
    s.pending = 7;
    let text = s.render_prometheus();
    assert!(text.starts_with(
        "# HELP letheo_breaths_total Dream cycles executed.\n# TYPE letheo_breaths_total counter\nletheo_breaths_total 1234\n# HELP letheo_breaths_basal_total"
    ));
    assert!(text.contains("\nletheo_pending 7\n"));
    assert!(text.ends_with("# TYPE letheo_long_term_len gauge\nletheo_long_term_len 0\n"));
}

#[test]
fn evoke_on_unknown_subject_is_none() {
    let mut o = alive(0);
    match tell(&mut o, Command::Evoke { req: EvokeRequest::new("ghost", 800) }) {
        Answer::Evoked(ctx) => assert!(ctx.is_none()),
        other => panic!("expected no essence, got {other:?}"),
    }
}

#[test]
fn texts_are_embedded_on_the_way_in() {
    let mut o = alive(0);
    let cmd = Command::PerceiveText {
        subject: "u".to_string(),
        text: "running shoes".to_string(),
        salience: d(1.0),
        halflife: d(3600.0),
    };
    assert!(matches!(tell(&mut o, cmd), Answer::Done));
    assert_eq!(breathe(&mut o).distilled_subjects, 1);
    let instant = Command::PerceiveText {
        subject: "u".to_string(),
        text: "x".to_string(),
        salience: d(1.0),
        halflife: d(0.0),
    };
    assert!(!o.can_carry_out(&instant), "a half-life must be positive");
}

#[test]
fn breathing_for_some_leaves_the_others() {
    let mut o = alive(0);
    tell(&mut o, Command::Perceive(perception("a", &[1.0, 0.0])));
    tell(&mut o, Command::Perceive(perception("b", &[1.0, 0.0])));
    match tell(&mut o, Command::Breathe { subjects: Some(vec!["b".to_string()]) }) {
        Answer::Breathed(r) => assert_eq!(r.distilled_subjects, 1),
        other => panic!("expected a report, got {other:?}"),
    }
    assert_eq!(measure(&mut o).long_term_len, 1);
}

#[test]
fn default_configuration() {
    let c = AsyncConfig::default();
    assert_eq!(c.breath_interval, 60_000_000_000);
    assert_eq!(c.pressure_watermark, 256);
    assert_eq!(f(c.time_scale), 1.0);
    assert_eq!(c.channel_capacity, 1024);
    assert_eq!(Stopped.message(), "async runtime has stopped");
}

// Snapshots.

fn iv(subject: &str, c: &[f32], absorbed: usize) -> IntentionVector {
    IntentionVector {
        subject: subject.into(),
        centroid: v(c),
        anomalies: vec![v(&[0.0, 1.0])],
        core_label: "core".into(),
        anomaly_labels: vec!["novelty".into()],
        absorbed,
        redundant: 0,
        label_histogram: vec![("core".into(), absorbed)],
        modes: vec![],
    }
}

fn sample_store() -> ArchetypeStore {
    let mut s = ArchetypeStore::new();
    s.imprint(&Ieee, &iv("user:Xolotl", &[1.0, 0.0], 1000), Resilience::High, d(0.0));
    s.imprint(&Ieee, &iv("user:Xolotl", &[0.0, 1.0], 500), Resilience::High, d(3600.0));
    s.imprint(&Ieee, &iv("agent:Tlaloc", &[0.3, 0.7], 42), Resilience::Medium, d(0.0));
    s
}

#[test]
fn filename_is_collision_resistant() {
    // Subjects that sanitize to the same prefix must differ by hash.
    assert_ne!(snapshot_filename("user:X"), snapshot_filename("user_X"));
}

#[test]
fn filenames_show_the_subject_and_its_hash() {
    assert_eq!(fnv1a(""), 0xcbf2_9ce4_8422_2325);
    assert_eq!(fnv1a("a"), 0xaf63_dc4c_8601_ec8c);
    assert_eq!(snapshot_filename("a"), "a-af63dc4c8601ec8c.json");
    assert_eq!(snapshot_filename(""), "-cbf29ce484222325.json");
    assert!(snapshot_filename("señor:Z 9").starts_with("se_or_Z_9-"));
    let long = snapshot_filename(&"x".repeat(200));
    assert_eq!(long.len(), 70);
    assert!(long.starts_with(&"x".repeat(48)));
    assert!(snapshot_named(&long));
}

#[test]
fn directories_are_read_in_the_order_of_names() {
    assert_eq!(FACTS_FILENAME, "facts.json");
    assert!(!snapshot_named("facts.json"));
    assert!(!snapshot_named(".json"));
    assert!(!snapshot_named("notes.txt"));
    assert!(snapshot_named("b.json"));
    let names: Vec<String> =
        ["c.json", "facts.json", "a.json", "readme", "b.json"].iter().map(|n| n.to_string()).collect();
    assert_eq!(restore_order(&names), vec![2, 4, 0]);
}

#[test]
fn roundtrip_preserves_every_field() {
    let original = sample_store();
    let snapshots = take_snapshots(&original);
    assert_eq!(snapshots.len(), 2, "two distinct subjects → two files");
    assert!(snapshots.iter().all(|x| x.version == SNAPSHOT_VERSION));
    let restored = rebuild(snapshots);
    assert_eq!(restored.len(), 2);
    let a = original.get("user:Xolotl").unwrap();
    let b = restored.get("user:Xolotl").unwrap();
    assert_eq!(a.subject, b.subject);
    assert_eq!(a.represented, b.represented);
    assert_eq!(a.core, b.core);
    assert_eq!(a.anomalies, b.anomalies);
    assert_eq!(a.arc.len(), b.arc.len(), "evolutionary arc survives");
    assert_eq!(a.arc[1].absorbed, b.arc[1].absorbed);
    assert_eq!(a.trace.lambda, b.trace.lambda);
    assert_eq!(a.trace.reinforcement, b.trace.reinforcement);
}

#[test]
fn resonance_survives_restart() {
    let restored = rebuild(take_snapshots(&sample_store()));
    let top = restored.resonate(&Ieee, &v(&[0.6, 0.4]), 1, d(7200.0), theta());
    assert_eq!(top.len(), 1);
    assert_eq!(top[0].subject, "user:Xolotl");
}

#[test]
fn runtime_long_term_survives_restart() {
    let mut rt = CognitiveRuntime::new(RuntimeConfig::default(), Ieee);
    for _ in 0..50 {
        rt.perceive(Perception::new(&Ieee, "user:X", v(&[1.0, 0.0]), d(1.0), d(86_400.0), d(0.0)));
    }
    rt.breathe(&["user:X"], d(0.0));
    let saved = take_snapshots(rt.long_term());
    drop(rt);

    let mut reborn = CognitiveRuntime::new(RuntimeConfig::default(), Ieee);
    assert_eq!(reborn.long_term_len(), 0);
    *reborn.long_term_mut() = rebuild(saved);
    assert!(reborn.ready(&["user:X"]));
    let ctx = reborn
        .evoke(&EvokeRequest::new("user:X", 800), d(0.0))
        .expect("essence survived restart");
    assert_eq!(ctx.represented, 50);
}

#[test]
fn missing_dir_loads_empty() {
    let store = rebuild(Vec::new());
    assert!(store.is_empty(), "first startup: empty store, no error");
}

#[test]
fn factstore_roundtrip_preserves_facts_and_physics() {
    let mut fs = FactStore::new();
    fs.remember(
        &Ieee,
        "user:X",
        "allergic to peanuts",
        v(&[0.0, 1.0]),
        "agentA",
        d(1.0),
        d(86_400.0),
        d(0.0),
    );
    fs.remember(
        &Ieee,
        "user:X",
        "drives a red car",
        v(&[1.0, 0.0]),
        "agentB",
        d(0.8),
        d(86_400.0),
        d(1.0),
    );
    let hits = fs.recall(&Ieee, "user:X", &v(&[1.0, 0.0]), 1, d(2.0), theta());
    assert_eq!(hits[0].text, "drives a red car");

    let dto = FactStoreDto::from_store(&fs);
    assert_eq!(dto.facts.len(), 2, "two distinct facts → two entries");
    let mut restored = dto.into_store();
    assert_eq!(restored.len(), 2);
    for (a, b) in fs.iter().iter().zip(restored.iter().iter()) {
        assert_eq!(a.text, b.text, "exact fact survives verbatim");
        assert_eq!(a.subject, b.subject);
        assert_eq!(a.provenance, b.provenance);
        assert_eq!(a.embedding, b.embedding);
        assert_eq!(a.created_at, b.created_at);
        assert_eq!(a.trace.lambda, b.trace.lambda, "consolidated half-life is preserved");
        assert_eq!(a.trace.reinforcement, b.trace.reinforcement);
        assert_eq!(a.trace.last_touch, b.trace.last_touch);
    }
    assert_eq!(restored.theta_dedup(), fs.theta_dedup());
    let after = restored.recall(&Ieee, "user:X", &v(&[0.0, 1.0]), 1, d(3.0), theta());
    assert_eq!(after[0].text, "allergic to peanuts", "fact survives restart and is evoked");
}

#[test]
fn multimodal_archetype_survives_restart_with_physics() {
    let mut rt = CognitiveRuntime::new(RuntimeConfig::default(), Ieee);
    let behaviours: [(&str, [f32; 3]); 3] =
        [("noir", [1.0, 0.0, 0.0]), ("docs", [0.0, 1.0, 0.0]), ("scifi", [0.0, 0.0, 1.0])];
    for _ in 0..10 {
        for (act, e) in &behaviours {
            rt.perceive(
                Perception::new(&Ieee, "u", v(e), d(1.0), d(86_400.0), d(0.0)).with_trait("act", act),
            );
        }
    }
    rt.breathe(&["u"], d(0.0));
    let modes_before = rt.long_term().get("u").unwrap().modes.len();
    assert_eq!(modes_before, 3, "three behaviours → three modes");
    let saved = take_snapshots(rt.long_term());
    drop(rt);

    let restored = rebuild(saved);
    let a = restored.get("u").unwrap();
    assert_eq!(a.modes.len(), 3, "modes survive restart");
    let labels: Vec<&str> = a.modes.iter().map(|m| m.label.as_str()).collect();
    assert!(labels.contains(&"noir") && labels.contains(&"docs") && labels.contains(&"scifi"));
    assert!(
        (g(a.resonance(&Ieee, &v(&[1.0, 0.0, 0.0]))) - 1.0).abs() < 1e-3,
        "correct mode resonates after restart"
    );
}

#[test]
fn mode_origin_and_drift_survive_restart() {
    let mut rt = CognitiveRuntime::new(RuntimeConfig::default(), Ieee);
    for _ in 0..5 {
        rt.perceive(
            Perception::new(&Ieee, "u", v(&[1.0, 0.0]), d(1.0), d(1.0), d(0.0)).with_trait("act", "x"),
        );
    }
    rt.breathe(&["u"], d(0.0));
    for _ in 0..5 {
        rt.perceive(
            Perception::new(&Ieee, "u", v(&[0.6, 0.8]), d(1.0), d(86_400.0), d(0.0))
                .with_trait("act", "x"),
        );
    }
    rt.breathe(&["u"], d(100.0));
    let drift_before = g(rt.long_term().get("u").unwrap().modes[0].drift(&Ieee));
    assert!(drift_before > 0.0, "mode drifted from its origin: {drift_before}");
    let restored = rebuild(take_snapshots(rt.long_term()));
    let drift_after = g(restored.get("u").unwrap().modes[0].drift(&Ieee));
    assert!((drift_after - drift_before).abs() < 1e-6, "origin (and drift) survive restart");
}

#[test]
fn old_snapshots_without_an_origin_have_not_drifted() {
    let mut rt = CognitiveRuntime::new(RuntimeConfig::default(), Ieee);
    rt.perceive(Perception::new(&Ieee, "u", v(&[0.6, 0.8]), d(1.0), d(1.0), d(0.0)));
    rt.breathe(&["u"], d(0.0));
    let mut dto = ArchetypeDto::from_archetype(rt.long_term().get("u").unwrap());
    dto.modes[0].origin = Vec::new();
    let a = dto.into_archetype();
    assert_eq!(a.modes[0].origin, a.modes[0].centroid);
    assert!(g(a.modes[0].drift(&Ieee)) < 1e-6);
}
