//! Sessions: statements and their execution, predicates, and the prompt.

use letheo::archetype::ArchetypeStore;
use letheo::arithmetic::Arithmetic;
use letheo::ast::CmpOp;
use letheo::ast::Distill;
use letheo::ast::Duration;
use letheo::ast::EssenceKind;
use letheo::ast::Evoke;
use letheo::ast::Fade;
use letheo::ast::Field;
use letheo::ast::Imprint;
use letheo::ast::Perceive;
use letheo::ast::Predicate;
use letheo::ast::Projection;
use letheo::ast::Recall;
use letheo::ast::Reinforce;
use letheo::ast::Resilience;
use letheo::ast::Resolution;
use letheo::ast::Statement;
use letheo::ast::Value;
use letheo::exec::traits_to_text;
use letheo::exec::ExecError;
use letheo::exec::ExecResult;
use letheo::exec::Executor;
use letheo::exec::PerceptionFacts;
use letheo::factstore::RecalledFact;
use letheo::index::normalize;
use letheo::number::Double;
use letheo::number::Single;
use letheo::number::Vector;
use letheo::perception::Perception;
use letheo::persist::fnv1a;
use letheo::persist::rebuild;
use letheo::persist::take_snapshots;
use letheo::provider::string_together;
use letheo::provider::Provider;
use letheo::provider::EMBED_DIM;
use letheo::repl::format_error;
use letheo::repl::format_result;
use letheo::repl::Eval;
use letheo::repl::Repl;
use letheo::repl::Step;
use letheo::repl::HELP;
use letheo::runtime::BreathReport;
use letheo::runtime::CognitiveRuntime;
use letheo::runtime::RuntimeConfig;
use letheo::traits::Traits;

/// The floating-point unit of the machine.
#[derive(Clone, Copy)]
struct Ieee;

impl Arithmetic for Ieee {
    fn add64(&self, x: Double, y: Double) -> Double {
        d(f(x) + f(y))
    }
    fn sub64(&self, x: Double, y: Double) -> Double {
        d(f(x) - f(y))
    }
    fn mul64(&self, x: Double, y: Double) -> Double {
        d(f(x) * f(y))
    }
    fn div64(&self, x: Double, y: Double) -> Double {
        d(f(x) / f(y))
    }
    fn add32(&self, x: Single, y: Single) -> Single {
        s(g(x) + g(y))
    }
    fn sub32(&self, x: Single, y: Single) -> Single {
        s(g(x) - g(y))
    }
    fn mul32(&self, x: Single, y: Single) -> Single {
        s(g(x) * g(y))
    }
    fn div32(&self, x: Single, y: Single) -> Single {
        s(g(x) / g(y))
    }
    fn sqrt32(&self, x: Single) -> Single {
        s(g(x).sqrt())
    }
    fn exp64(&self, x: Double) -> Double {
        d(f(x).exp())
    }
    fn widen(&self, x: Single) -> Double {
        d(f64::from(g(x)))
    }
    fn count64(&self, x: u64) -> Double {
        d(x as f64)
    }
    fn count32(&self, x: u64) -> Single {
        s(x as f32)
    }
    fn round64(&self, x: Double) -> u64 {
        f(x).round() as u64
    }
    fn parse64(&self, text: &str) -> Option<Double> {
        text.parse::<f64>().ok().map(d)
    }
    fn fixed64(&self, x: Double, digits: usize) -> String {
        format!("{:.*}", digits, f(x))
    }
    fn cosine(&self, x: &Vector, y: &Vector) -> Single {
        let dot: f32 = x.iter().zip(y).map(|(a, b)| g(*a) * g(*b)).sum();
        let nx: f32 = x.iter().map(|a| g(*a) * g(*a)).sum::<f32>().sqrt();
        let ny: f32 = y.iter().map(|a| g(*a) * g(*a)).sum::<f32>().sqrt();
        let c = dot / (nx * ny);
        if nx * ny == 0.0 || c.is_nan() {
            s(0.0)
        } else {
            s(c.clamp(-1.0, 1.0))
        }
    }
    fn mean(&self, rows: &Vec<Vector>) -> Vector {
        let mut out = vec![0.0f32; rows[0].len()];
        for row in rows {
            for (o, x) in out.iter_mut().zip(row) {
                *o += g(*x);
            }
        }
        out.iter().map(|o| s(*o / rows.len() as f32)).collect()
    }
}

fn d(x: f64) -> Double {
    Double { bits: if x.is_nan() { f64::NAN.to_bits() } else { x.to_bits() } }
}

fn f(x: Double) -> f64 {
    f64::from_bits(x.bits)
}

fn s(x: f32) -> Single {
    Single { bits: if x.is_nan() { f32::NAN.to_bits() } else { x.to_bits() } }
}

fn g(x: Single) -> f32 {
    f32::from_bits(x.bits)
}

fn v(xs: &[f32]) -> Vector {
    xs.iter().map(|x| s(*x)).collect()
}

/// A deterministic engine: each token of a text adds to a bucket that its hash picks.
struct MockProvider {
    dim: usize,
}

impl MockProvider {
    fn new() -> Self {
        Self { dim: EMBED_DIM }
    }

    fn with_dim(dim: usize) -> Self {
        Self { dim }
    }
}

impl Provider for MockProvider {
    fn dim(&self) -> usize {
        self.dim
    }

    fn embed(&self, text: &str) -> Vector {
        let mut out = vec![0.0f32; self.dim];
        for token in text.split_whitespace() {
            let h = fnv1a(&token.to_lowercase());
            let bucket = (h % self.dim as u64) as usize;
            out[bucket] += if (h >> 63) & 1 == 1 { -1.0 } else { 1.0 };
        }
        normalize(&Ieee, &v(&out))
    }
}

fn fresh() -> Executor<MockProvider, Ieee> {
    Executor::new(CognitiveRuntime::new(RuntimeConfig::default(), Ieee), MockProvider::new())
}

fn traits(pairs: &[(&str, &str)]) -> Traits {
    let mut t = Traits::new();
    for (k, value) in pairs {
        t.insert(k, value);
    }
    t
}

fn perceive(subject: &str, pairs: &[(&str, &str)]) -> Statement {
    Statement::Perceive(Perceive {
        subject: subject.to_string(),
        traits: traits(pairs),
        salience: None,
        halflife: None,
    })
}

fn perceive_with(subject: &str, pairs: &[(&str, &str)], salience: f64, hours: f64) -> Statement {
    Statement::Perceive(Perceive {
        subject: subject.to_string(),
        traits: traits(pairs),
        salience: Some(d(salience)),
        halflife: Duration::from_value_unit(&Ieee, d(hours), "h"),
    })
}

fn distill(subject: &str, filter: Option<Predicate>) -> Statement {
    Statement::Distill(Distill {
        subject: subject.to_string(),
        compressing_by_variance: true,
        retaining: vec![],
        filter,
    })
}

fn evoking(subject: &str, with: &[&str], budget: Option<usize>) -> Evoke {
    Evoke {
        kind: EssenceKind::Essence,
        subject: subject.to_string(),
        span: None,
        resonating_with: with.iter().map(|w| w.to_string()).collect(),
        resolution: None,
        projecting: None,
        token_budget: budget,
    }
}

fn evoke(subject: &str, with: &[&str], budget: Option<usize>) -> Statement {
    Statement::Evoke(evoking(subject, with, budget))
}

fn fade(filter: Option<Predicate>) -> Statement {
    Statement::Fade(Fade { target: "noise".to_string(), preserving_archetype: true, filter })
}

fn imprint(archetype: &str, resilience: Option<Resilience>) -> Statement {
    Statement::Imprint(Imprint { archetype: archetype.to_string(), resilience })
}

fn recall(subject: &str, with: &[&str], k: usize, filter: Option<Predicate>) -> Statement {
    Statement::Recall(Recall {
        subject: subject.to_string(),
        resonating_with: with.iter().map(|w| w.to_string()).collect(),
        k,
        filter,
    })
}

fn reinforce(subject: &str, with: &[&str], k: usize) -> Statement {
    Statement::Reinforce(Reinforce {
        subject: subject.to_string(),
        resonating_with: with.iter().map(|w| w.to_string()).collect(),
        k,
    })
}

fn over(field: Field, limit: f64) -> Predicate {
    Predicate::Cmp { field, op: CmpOp::Gt, value: Value::Num(d(limit)) }
}

/// Stores a fact whose embedding is that of another text.
fn remember_fact(
    ex: &mut Executor<MockProvider, Ieee>,
    subject: &str,
    text: &str,
    query_text: &str,
    halflife: f64,
    now: f64,
) {
    let emb = ex.provider().embed(query_text);
    ex.runtime_mut().remember(subject, text, emb, "test", d(1.0), d(halflife), d(now));
}

// Execution.

#[test]
fn full_program_perceive_distill_evoke() {
    let bought = [("act", "purchase"), ("object", "shoes")];
    let stmts = vec![
        perceive("u:X", &bought),
        perceive("u:X", &bought),
        perceive("u:X", &bought),
        distill("u:X", None),
        evoke("u:X", &[], Some(800)),
    ];
    let mut ex = fresh();
    assert!(ex.can_execute(&stmts));
    let results = ex.execute_program(&stmts, d(0.0));
    assert_eq!(results.len(), 5);
    for r in &results[..3] {
        assert!(matches!(r, Ok(ExecResult::Perceived { .. })));
    }
    match &results[3] {
        Ok(ExecResult::Dreamed(r)) => {
            assert_eq!(r.distilled_subjects, 1);
            assert_eq!(r.perceptions_absorbed, 3);
        }
        other => panic!("expected Dreamed, got {other:?}"),
    }
    match &results[4] {
        Ok(ExecResult::Evoked(ctx)) => {
            assert_eq!(ctx.represented, 3);
            assert!(ctx.token_estimate <= 800);
        }
        other => panic!("expected Evoked, got {other:?}"),
    }
}

#[test]
fn evoke_missing_budget_fails() {
    let mut ex = fresh();
    let r = &ex.execute_program(&vec![evoke("u:X", &[], None)], d(0.0))[0];
    assert!(matches!(r, Err(ExecError::MissingBudget)));
}

#[test]
fn evoke_unknown_subject_fails() {
    let mut ex = fresh();
    let r = &ex.execute_program(&vec![evoke("ghost", &[], Some(800))], d(0.0))[0];
    assert!(matches!(r, Err(ExecError::NoSuchSubject(_))));
}

#[test]
fn fade_sweeps_decayed_noise() {
    let mut ex = fresh();
    ex.execute(&perceive_with("u:X", &[("a", "b")], 0.1, 1.0), d(0.0)).unwrap();
    let r = ex.execute(&fade(None), d(3600.0 * 10.0)).unwrap();
    match r {
        ExecResult::Faded { swept } => assert_eq!(swept, 1),
        other => panic!("expected Faded, got {other:?}"),
    }
}

#[test]
fn distill_where_filters_by_trait() {
    let shop = Predicate::Cmp {
        field: Field::Trait("domain".to_string()),
        op: CmpOp::Eq,
        value: Value::Text("ecommerce".to_string()),
    };
    let stmts = vec![
        perceive("u:X", &[("act", "buy"), ("domain", "ecommerce")]),
        perceive("u:X", &[("act", "buy"), ("domain", "ecommerce")]),
        perceive("u:X", &[("act", "read"), ("domain", "news")]),
        distill("u:X", Some(shop)),
    ];
    let mut ex = fresh();
    let results = ex.execute_program(&stmts, d(0.0));
    match &results[3] {
        Ok(ExecResult::Dreamed(r)) => assert_eq!(r.perceptions_absorbed, 2, "WHERE filtered by trait"),
        other => panic!("expected Dreamed, got {other:?}"),
    }
}

#[test]
fn fade_where_predicate_selects_what_to_forget() {
    let mut ex = fresh();
    ex.execute(&perceive_with("u:X", &[("a", "b")], 1.0, 100.0), d(0.0)).unwrap();
    ex.execute(&perceive_with("u:X", &[("a", "b")], 1.0, 100.0), d(0.0)).unwrap();
    match ex.execute(&fade(Some(over(Field::Age, 3600.0))), d(7200.0)).unwrap() {
        ExecResult::Faded { swept } => assert_eq!(swept, 2, "WHERE by age swept them"),
        other => panic!("expected Faded, got {other:?}"),
    }
}

#[test]
fn evoke_resolution_point_drops_arc() {
    let mut last = evoking("u:X", &[], Some(800));
    last.resolution = Some(Resolution::Point);
    let stmts = vec![
        perceive("u:X", &[("act", "a")]),
        distill("u:X", None),
        perceive("u:X", &[("act", "b")]),
        distill("u:X", None),
        Statement::Evoke(last),
    ];
    let mut ex = fresh();
    let results = ex.execute_program(&stmts, d(0.0));
    match results.last().unwrap() {
        Ok(ExecResult::Evoked(ctx)) => assert!(ctx.arc_points.is_empty(), "point ⇒ no arc"),
        other => panic!("expected Evoked, got {other:?}"),
    }
}

#[test]
fn evoke_projection_and_span_shape_the_arc() {
    let mut ex = fresh();
    for (i, act) in ["a", "b", "c"].iter().enumerate() {
        ex.execute(&perceive("u", &[("act", act)]), d(i as f64 * 3600.0)).unwrap();
        ex.execute(&distill("u", None), d(i as f64 * 3600.0)).unwrap();
    }
    let points = |ex: &mut Executor<MockProvider, Ieee>, e: Evoke| -> usize {
        match ex.execute(&Statement::Evoke(e), d(7200.0)).unwrap() {
            ExecResult::Evoked(ctx) => ctx.arc_points.len(),
            other => panic!("expected Evoked, got {other:?}"),
        }
    };
    assert_eq!(points(&mut ex, evoking("u", &[], Some(800))), 3);
    let mut recent = evoking("u", &[], Some(800));
    recent.span = Duration::from_value_unit(&Ieee, d(90.0), "min");
    assert_eq!(points(&mut ex, recent), 2);
    let mut snapshot = evoking("u", &[], Some(800));
    snapshot.projecting = Some(Projection::Snapshot);
    assert_eq!(points(&mut ex, snapshot), 0);
    let mut whole = evoking("u", &[], Some(800));
    whole.projecting = Some(Projection::Snapshot);
    whole.resolution = Some(Resolution::Arc);
    assert_eq!(points(&mut ex, whole), 3, "resolution rules over projection");
}

#[test]
fn imprint_consolidates_existing_archetype() {
    let stmts = vec![
        perceive("u:X", &[("a", "b")]),
        perceive("u:X", &[("a", "b")]),
        distill("u:X", None),
        imprint("u:X", Some(Resilience::High)),
    ];
    let mut ex = fresh();
    let results = ex.execute_program(&stmts, d(0.0));
    match results.last().unwrap() {
        Ok(ExecResult::Imprinted { archetype, .. }) => assert_eq!(archetype, "u:X"),
        other => panic!("expected Imprinted, got {other:?}"),
    }
    let a = ex.runtime().long_term().get("u:X").unwrap();
    assert!(f(a.trace.reinforcement) > 0.0, "IMPRINT consolidated the essence");
}

#[test]
fn imprint_is_as_firm_as_it_is_told() {
    let shrink = |resilience: Option<Resilience>| -> f64 {
        let mut ex = fresh();
        ex.execute(&perceive("u", &[("a", "b")]), d(0.0)).unwrap();
        ex.execute(&distill("u", None), d(0.0)).unwrap();
        let before = f(ex.runtime().long_term().get("u").unwrap().trace.lambda);
        ex.execute(&imprint("u", resilience), d(0.0)).unwrap();
        f(ex.runtime().long_term().get("u").unwrap().trace.lambda) / before
    };
    assert!((shrink(Some(Resilience::High)) - 0.8).abs() < 1e-12);
    assert!((shrink(Some(Resilience::Medium)) - 0.9).abs() < 1e-12);
    assert!((shrink(Some(Resilience::Low)) - 0.95).abs() < 1e-12);
    assert!((shrink(None) - 0.95).abs() < 1e-12);
}

#[test]
fn imprint_unknown_subject_fails() {
    let mut ex = fresh();
    let r = &ex.execute_program(&vec![imprint("ghost", Some(Resilience::High))], d(0.0))[0];
    assert!(matches!(r, Err(ExecError::NoSuchSubject(_))), "cannot imprint what was not distilled");
}

#[test]
fn evoke_resonating_with_focuses_on_the_matching_mode() {
    let stmts = vec![
        perceive("u", &[("topic", "galaxies")]),
        perceive("u", &[("topic", "galaxies")]),
        perceive("u", &[("flavor", "cooking")]),
        perceive("u", &[("flavor", "cooking")]),
        distill("u", None),
    ];
    let mut ex = fresh();
    ex.execute_program(&stmts, d(0.0));
    match &ex.execute_program(&vec![evoke("u", &["galaxies"], Some(800))], d(0.0))[0] {
        Ok(ExecResult::Evoked(ctx)) => assert_eq!(ctx.resonating_mode.as_deref(), Some("galaxies")),
        other => panic!("expected Evoked, got {other:?}"),
    }
    match &ex.execute_program(&vec![evoke("u", &["cooking"], Some(800))], d(0.0))[0] {
        Ok(ExecResult::Evoked(ctx)) => assert_eq!(ctx.resonating_mode.as_deref(), Some("cooking")),
        other => panic!("expected Evoked, got {other:?}"),
    }
    match &ex.execute_program(&vec![evoke("u", &[], Some(800))], d(0.0))[0] {
        Ok(ExecResult::Evoked(ctx)) => assert_eq!(ctx.resonating_mode, None),
        other => panic!("expected Evoked, got {other:?}"),
    }
}

#[test]
fn recall_returns_the_matching_fact_verbatim() {
    let day = 86_400.0;
    let mut ex = fresh();
    remember_fact(&mut ex, "u", "allergic to peanuts", "health allergy peanuts", day, 0.0);
    remember_fact(&mut ex, "u", "drives a red car", "vehicle car red", day, 0.0);
    let prog = vec![recall("u", &["health", "allergy"], 1, None)];
    match &ex.execute_program(&prog, d(0.0))[0] {
        Ok(ExecResult::Recalled(facts)) => {
            assert_eq!(facts.len(), 1);
            assert_eq!(facts[0].text, "allergic to peanuts", "layer-1: lossless verbatim retrieval");
        }
        other => panic!("expected Recalled, got {other:?}"),
    }
    // RECALL reads only.
    assert!(ex.runtime().facts().iter().iter().all(|x| f(x.trace.reinforcement) == 0.0));
}

#[test]
fn reinforce_resets_decay_so_the_fact_survives() {
    let half = 30.0 * 86_400.0;
    let mut ex = fresh();
    remember_fact(&mut ex, "u", "fact alpha", "topic alpha", half, 0.0);
    remember_fact(&mut ex, "u", "fact beta", "topic beta", half, 0.0);
    match ex.execute(&reinforce("u", &["alpha"], 1), d(half)).unwrap() {
        ExecResult::Reinforced { count } => assert_eq!(count, 1),
        other => panic!("expected Reinforced, got {other:?}"),
    }
    let swept = ex.runtime_mut().fade_facts(d(half * 5.0));
    assert_eq!(swept, 1, "only the unreinforced fact fades");
}

#[test]
fn recall_where_resonates_filters_by_threshold() {
    let day = 86_400.0;
    let mut ex = fresh();
    remember_fact(&mut ex, "u", "strong match", "query topic here", day, 0.0);
    remember_fact(&mut ex, "u", "weak match", "query", day, 0.0);
    let prog = vec![recall("u", &["query", "topic", "here"], 5, Some(over(Field::Resonance, 0.6)))];
    match &ex.execute_program(&prog, d(0.0))[0] {
        Ok(ExecResult::Recalled(facts)) => {
            assert_eq!(facts.len(), 1, "vector predicate filtered the weak match");
            assert_eq!(facts[0].text, "strong match");
        }
        other => panic!("expected Recalled, got {other:?}"),
    }
}

#[test]
fn a_refused_statement_changes_nothing() {
    let mut ex = fresh();
    ex.execute(&perceive("u", &[("a", "b")]), d(0.0)).unwrap();
    ex.execute(&distill("u", None), d(0.0)).unwrap();
    assert!(ex.execute(&imprint("ghost", None), d(1.0)).is_err());
    assert!(ex.execute(&evoke("u", &[], None), d(1.0)).is_err());
    let a = ex.runtime().long_term().get("u").unwrap();
    assert_eq!(f(a.trace.reinforcement), 0.0);
    assert_eq!(ex.runtime().short_term_len(), 1);
}

#[test]
fn programs_without_a_half_life_are_not_executable() {
    let ex = fresh();
    assert!(ex.can_execute(&vec![perceive("u", &[])]));
    assert!(!ex.can_execute(&vec![perceive_with("u", &[], 1.0, 0.0)]));
    assert!(!ex.can_execute(&vec![perceive_with("u", &[], 1.0, -1.0)]));
}

#[test]
fn stimuli_are_embedded_by_names_and_values() {
    let p = Perceive {
        subject: "u".to_string(),
        traits: traits(&[("object", "shoes"), ("act", "purchase")]),
        salience: None,
        halflife: None,
    };
    assert_eq!(traits_to_text(&p), "act purchase object shoes");
}

#[test]
fn errors_say_why() {
    assert_eq!(
        ExecError::NoSuchSubject("u".to_string()).message(),
        "no live archetype for 'u'"
    );
    assert_eq!(ExecError::MissingBudget.message(), "EVOKE requires WITHIN budget N tokens");
}

// Predicates and durations.

/// A memory of salience 0.4 that hardly decays, with a few traits.
fn sample() -> Perception {
    Perception::new(&Ieee, "u", v(&[1.0]), d(0.4), d(1.0e9), d(0.0))
        .with_trait("act", "buy")
        .with_trait("price", "19.5")
}

fn holds(p: &Predicate) -> bool {
    let memory = sample();
    p.eval(&Ieee, &PerceptionFacts { p: &memory, now: d(120.0), arith: &Ieee })
}

fn compare(field: Field, op: CmpOp, value: Value) -> bool {
    holds(&Predicate::Cmp { field, op, value })
}

#[test]
fn comparisons_need_matching_kinds() {
    assert!(compare(Field::Weight, CmpOp::Lt, Value::Num(d(0.5))));
    assert!(!compare(Field::Weight, CmpOp::Ge, Value::Num(d(0.5))));
    assert!(compare(Field::Salience, CmpOp::Eq, Value::Num(d(0.4))));
    assert!(compare(Field::Age, CmpOp::Eq, Value::Num(d(120.0))));
    assert!(!compare(Field::Weight, CmpOp::Lt, Value::Text("0.5".to_string())));
    assert!(!compare(Field::Resonance, CmpOp::Ne, Value::Num(d(0.0))));
    let price = || Field::Trait("price".to_string());
    assert!(compare(price(), CmpOp::Gt, Value::Num(d(19.0))));
    assert!(compare(price(), CmpOp::Le, Value::Num(d(19.5))));
    assert!(compare(price(), CmpOp::Eq, Value::Text("19.5".to_string())));
    let act = || Field::Trait("act".to_string());
    assert!(!compare(act(), CmpOp::Ne, Value::Num(d(1.0))));
    assert!(compare(act(), CmpOp::Lt, Value::Text("sell".to_string())));
    assert!(compare(act(), CmpOp::Ne, Value::Text("sell".to_string())));
    assert!(!compare(Field::Trait("none".to_string()), CmpOp::Ne, Value::Text("x".to_string())));
}

#[test]
fn predicates_combine() {
    let old = || Box::new(over(Field::Age, 60.0));
    let heavy = || Box::new(over(Field::Weight, 0.5));
    assert!(!holds(&Predicate::And(old(), heavy())));
    assert!(holds(&Predicate::Or(old(), heavy())));
    assert!(holds(&Predicate::Not(heavy())));
    assert!(!holds(&Predicate::Not(old())));
}

#[test]
fn durations_know_their_units() {
    let seconds = |n: f64, unit: &str| Duration::from_value_unit(&Ieee, d(n), unit).map(|x| f(x.seconds));
    assert_eq!(seconds(2.0, "min"), Some(120.0));
    assert_eq!(seconds(2.0, "m"), Some(120.0));
    assert_eq!(seconds(1.5, "hour"), Some(5400.0));
    assert_eq!(seconds(1.0, "d"), Some(86_400.0));
    assert_eq!(seconds(1.0, "week"), Some(604_800.0));
    assert_eq!(seconds(1.0, "month"), Some(2_592_000.0));
    assert_eq!(seconds(1.0, "y"), Some(31_536_000.0));
    assert_eq!(seconds(1.0, "fortnight"), None);
}

// Engines.

#[test]
fn deterministic() {
    let p = MockProvider::new();
    assert_eq!(p.embed("running shoes"), p.embed("running shoes"));
}

#[test]
fn similar_texts_more_similar_than_different() {
    let p = MockProvider::with_dim(64);
    let a = p.embed("nighttime running shoes");
    let b = p.embed("morning running shoes");
    let c = p.embed("life insurance mortgage bank");
    let cos = |x: &Vector, y: &Vector| x.iter().zip(y).map(|(i, j)| g(*i) * g(*j)).sum::<f32>();
    assert!(cos(&a, &b) > cos(&a, &c), "related texts resonate more");
}

#[test]
fn correct_dim() {
    assert_eq!(MockProvider::new().embed("x").len(), EMBED_DIM);
    assert_eq!(EMBED_DIM, 384);
}

#[test]
fn summaries_string_fragments_together() {
    assert_eq!(string_together(&["a", "b", "c"]), "a · b · c");
    assert_eq!(string_together(&[]), "");
    assert_eq!(MockProvider::new().summarize(&["noir", "docs"]), "noir · docs");
}

// The prompt.

fn repl() -> Repl<MockProvider, Ieee> {
    Repl::with_provider(MockProvider::new(), None, ArchetypeStore::new(), Ieee)
}

fn shown(e: Eval) -> String {
    match e {
        Eval::Output(s) => s,
        Eval::Quit => "<quit>".into(),
    }
}

fn command(r: &mut Repl<MockProvider, Ieee>, line: &str) -> String {
    match r.eval(line) {
        Step::Done(e) => shown(e),
        other => panic!("expected a reply, got {other:?}"),
    }
}

/// Runs a program as the host does once it is parsed.
fn program(r: &mut Repl<MockProvider, Ieee>, stmts: Vec<Statement>) -> String {
    assert!(r.can_run(&stmts));
    shown(r.run_mql(&Ok(stmts), &vec![]))
}

#[test]
fn full_session_perceive_distill_evoke() {
    let mut r = repl();
    let line = r#"PERCEIVE interaction FROM subject "u:X" AS { act: buy }"#;
    assert_eq!(r.eval(&format!("  {line}\n")), Step::Program { source: line.to_string() });
    assert_eq!(program(&mut r, vec![perceive("u:X", &[("act", "buy")])]), "· perceived «u:X»");
    program(&mut r, vec![perceive("u:X", &[("act", "buy")])]);
    let dreamed = program(&mut r, vec![distill("u:X", None)]);
    assert!(dreamed.contains("consolidated"), "{dreamed}");
    assert_eq!(dreamed, "· dreamed: 1 subject(s) consolidated, 2 perception(s) absorbed, 0 faded");
    let evoked = program(&mut r, vec![evoke("u:X", &[], Some(800))]);
    assert!(evoked.contains("evoked") && evoked.contains("compression"), "{evoked}");
    assert_eq!(evoked, "· evoked «u:X»: 2 events → 2 vectors · ~48 tokens · compression 1.0:1");
}

#[test]
fn tick_advances_logical_clock() {
    let mut r = repl();
    assert_eq!(f(r.now()), 0.0);
    command(&mut r, ":tick 3600");
    assert_eq!(f(r.now()), 3600.0);
    assert_eq!(command(&mut r, ":tick 60"), "⏱  now = 3660s");
    assert_eq!(f(r.now()), 3660.0);
    assert_eq!(command(&mut r, ":now"), "now = 3660s");
}

#[test]
fn the_clock_never_runs_backwards() {
    let mut r = repl();
    let mut last = f(r.now());
    for line in [":tick 5", ":tick -5", ":tick 0", ":now", ":tick 1e-30", ":tick inf", ":tick 7"] {
        command(&mut r, line);
        assert!(f(r.now()) >= last, "{line}");
        last = f(r.now());
    }
    assert_eq!(last, f64::INFINITY);
}

#[test]
fn commands_can_be_given_without_their_colon() {
    let mut r = repl();
    assert_eq!(r.meta("tick 3600"), Step::Done(Eval::Output("⏱  now = 3600s".to_string())));
    assert_eq!(r.meta("tick 60"), Step::Done(Eval::Output("⏱  now = 3660s".to_string())));
    assert_eq!(r.meta("quit"), Step::Done(Eval::Quit));
    assert_eq!(f(r.now()), 3660.0);
}

#[test]
fn tick_wants_seconds() {
    let mut r = repl();
    for line in [":tick", ":tick soon", ":tick -1", ":tick NaN"] {
        assert_eq!(command(&mut r, line), "usage: :tick <seconds ≥ 0>");
    }
    assert_eq!(f(r.now()), 0.0);
}

#[test]
fn syntax_error_is_reported_not_panicked() {
    let mut r = repl();
    assert_eq!(r.eval("PERCEIVE wat"), Step::Program { source: "PERCEIVE wat".to_string() });
    let o = shown(r.run_mql(&Err("expected FROM".to_string()), &vec![]));
    assert!(o.contains("syntax error"), "{o}");
    assert_eq!(o, "⚠ syntax error: expected FROM");
}

#[test]
fn quit_command() {
    let mut r = repl();
    assert_eq!(r.eval(":quit"), Step::Done(Eval::Quit));
    assert_eq!(r.eval(":q"), Step::Done(Eval::Quit));
    assert_eq!(r.eval("  : exit now"), Step::Done(Eval::Quit));
}

#[test]
fn save_then_load_via_meta_commands() {
    let mut r = repl();
    program(&mut r, vec![perceive("u:X", &[("act", "buy")])]);
    program(&mut r, vec![distill("u:X", None)]);
    assert_eq!(r.eval(":save  some dir "), Step::Save { dir: "some dir".to_string() });
    let snapshots = take_snapshots(r.runtime().long_term());
    let saved = shown(r.saved("some dir", Ok(snapshots.len())));
    assert!(saved.contains("saved 1"), "{saved}");
    assert_eq!(saved, "💾 saved 1 archetypes to some dir");

    let mut r2 = repl();
    assert_eq!(r2.eval(":load some dir"), Step::Load { dir: "some dir".to_string() });
    let loaded = shown(r2.loaded("some dir", Ok(rebuild(snapshots))));
    assert!(loaded.contains("loaded 1"), "{loaded}");
    assert_eq!(loaded, "📂 loaded 1 archetypes from some dir");
    let subs = command(&mut r2, ":subjects");
    assert!(subs.contains("u:X"), "{subs}");
    assert!(program(&mut r2, vec![evoke("u:X", &[], Some(800))]).contains("evoked"));
}

#[test]
fn disk_errors_are_reported() {
    let mut r = repl();
    assert_eq!(shown(r.saved("x", Err("full".to_string()))), "save error: full");
    assert_eq!(shown(r.loaded("x", Err("gone".to_string()))), "load error: gone");
}

#[test]
fn save_and_load_fall_back_to_the_directory_of_the_session() {
    let mut r =
        Repl::with_provider(MockProvider::new(), Some("mem".to_string()), ArchetypeStore::new(), Ieee);
    assert_eq!(r.home(), &Some("mem".to_string()));
    assert_eq!(r.eval(":save"), Step::Save { dir: "mem".to_string() });
    assert_eq!(r.eval(":load other"), Step::Load { dir: "other".to_string() });
    let mut bare = repl();
    assert_eq!(command(&mut bare, ":save"), "usage: :save <dir>  (or start with --persist)");
    assert_eq!(command(&mut bare, ":load"), "usage: :load <dir>  (or start with --persist)");
}

#[test]
fn semantic_error_blocks_execution() {
    let mut r = repl();
    let problems = vec!["budget must be > 0".to_string(), "and more".to_string()];
    let stmts = vec![perceive("u:X", &[("act", "buy")]), evoke("u:X", &[], Some(0))];
    let o = shown(r.run_mql(&Ok(stmts), &problems));
    assert!(o.contains("budget") && o.contains("> 0"), "{o}");
    assert_eq!(o, "⚠ budget must be > 0\n⚠ and more");
    assert_eq!(r.runtime().short_term_len(), 0, "nothing was executed");
}

#[test]
fn unknown_meta_command_is_friendly() {
    let mut r = repl();
    let o = command(&mut r, ":wat");
    assert!(o.contains("unknown"), "{o}");
    assert_eq!(o, "unknown command: ':wat' — try :help");
    assert_eq!(command(&mut r, ":"), "unknown command: ':' — try :help");
}

#[test]
fn help_state_and_subjects() {
    let mut r = repl();
    assert_eq!(command(&mut r, ":help"), HELP);
    assert_eq!(command(&mut r, ":?"), HELP);
    assert_eq!(command(&mut r, "   "), "");
    assert_eq!(command(&mut r, ":subjects"), "(no consolidated archetypes)");
    assert_eq!(Eval::Output(command(&mut r, ":subjects")).describe_count(), 0);
    program(&mut r, vec![perceive("a", &[("x", "y")]), perceive("b", &[("x", "y")])]);
    program(&mut r, vec![distill("a", None), distill("b", None)]);
    assert_eq!(command(&mut r, ":subjects"), "a\nb");
    assert_eq!(Eval::Output(command(&mut r, ":subjects")).describe_count(), 2);
    assert_eq!(
        command(&mut r, ":state"),
        "short-term: 2 perceptions · long-term: 2 archetypes"
    );
}

#[test]
fn counts_of_listings_skip_empty_lines() {
    assert_eq!(Eval::Output("a\n\nb\r\n\r\nc".to_string()).describe_count(), 3);
    assert_eq!(Eval::Output("\r".to_string()).describe_count(), 1);
    assert_eq!(Eval::Output(String::new()).describe_count(), 0);
    assert_eq!(Eval::Quit.describe_count(), 0);
}

#[test]
fn results_and_errors_are_worded() {
    let fact = |text: &str, score: f64| RecalledFact {
        text: text.to_string(),
        provenance: "p".to_string(),
        score: d(score),
    };
    assert_eq!(
        format_result(&Ieee, &ExecResult::Recalled(vec![fact("a", 0.5), fact("b", 0.256)])),
        "· recalled 2 fact(s): «a» (0.50), «b» (0.26)"
    );
    assert_eq!(format_result(&Ieee, &ExecResult::Recalled(vec![])), "· recall: no resonating facts");
    assert_eq!(format_result(&Ieee, &ExecResult::Faded { swept: 12 }), "· faded 12 perception(s)");
    assert_eq!(
        format_result(&Ieee, &ExecResult::Reinforced { count: 3 }),
        "· reinforced 3 fact(s) (decay reset)"
    );
    assert_eq!(
        format_result(&Ieee, &ExecResult::Imprinted { archetype: "u".to_string(), note: "" }),
        "· imprinted «u» (consolidated essence)"
    );
    let report = BreathReport { distilled_subjects: 0, perceptions_absorbed: 10, faded: 105 };
    assert_eq!(
        format_result(&Ieee, &ExecResult::Dreamed(report)),
        "· dreamed: 0 subject(s) consolidated, 10 perception(s) absorbed, 105 faded"
    );
    assert_eq!(
        format_error(&ExecError::NoSuchSubject("u".to_string())),
        "no live archetype for «u»"
    );
    let mut r = repl();
    assert_eq!(
        program(&mut r, vec![evoke("u", &[], None), fade(None)]),
        "⚠ EVOKE requires WITHIN budget N tokens\n· faded 0 perception(s)"
    );
}
