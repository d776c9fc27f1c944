//! The executor of MQL: what each statement does to a runtime.
//!
//! - `PERCEIVE` embeds the traits and assimilates the stimulus.
//! - `DISTILL` is one dream cycle for the subject.
//! - `EVOKE` resolves the essence within the budget of the statement.
//! - `FADE` sweeps short-term memory.
//! - `IMPRINT` anchors the archetype of the subject.
//! - `RECALL` retrieves exact facts; `REINFORCE` retrieves and reinforces them.

use crate::archetype;
use crate::archetype::ArchetypeView;
use crate::arithmetic;
use crate::arithmetic::Arithmetic;
use crate::ast;
use crate::ast::Distill;
use crate::ast::Evoke;
use crate::ast::Facts;
use crate::ast::Fade;
use crate::ast::Field;
use crate::ast::Imprint;
use crate::ast::Perceive;
use crate::ast::Predicate;
use crate::ast::Projection;
use crate::ast::Recall;
use crate::ast::Reinforce;
use crate::ast::Resilience;
use crate::ast::Resolution;
use crate::ast::Statement;
use crate::capacity;
use crate::entropy;
use crate::entropy::EntropyTrace;
use crate::entropy::Tick;
use crate::entropy::DEFAULT_THETA_FADE;
use crate::evoke;
use crate::evoke::ArcDetail;
use crate::evoke::CompressedContext;
use crate::evoke::ContextView;
use crate::evoke::EvokeRequest;
use crate::evoke::RequestView;
use crate::factstore;
use crate::factstore::Fact;
use crate::factstore::FactView;
use crate::factstore::RecalledFact;
use crate::number::Double;
use crate::number::Single;
use crate::number::Vector;
use crate::perception;
use crate::perception::Perception;
use crate::perception::PerceptionView;
use crate::provider;
use crate::provider::Provider;
use crate::ranking;
use crate::runtime;
use crate::runtime::BreathReport;
use crate::runtime::CognitiveRuntime;
use crate::runtime::RuntimeView;
use crate::selection;
use crate::synthesis;
use crate::text;
use crate::traits;
use vstd::prelude::*;

verus! {

/// Pattern of the salience of a stimulus that states none: `0.5`.
pub const DEFAULT_SALIENCE: u64 = 0x3fe0_0000_0000_0000;

/// Pattern of the share by which a firm imprint lowers decay rates: `0.2`.
pub const CONSOLIDATION_HIGH: u64 = 0x3fc9_9999_9999_999a;

/// Pattern of the share by which an ordinary imprint lowers decay rates: `0.1`.
pub const CONSOLIDATION_MEDIUM: u64 = 0x3fb9_9999_9999_999a;

/// Pattern of the share by which a light imprint lowers decay rates: `0.05`.
pub const CONSOLIDATION_LOW: u64 = 0x3fa9_9999_9999_999a;

/// What a statement yields.
#[derive(Debug)]
pub enum ExecResult {
    Perceived { subject: String },
    Dreamed(BreathReport),
    Evoked(CompressedContext),
    Faded { swept: usize },
    Imprinted { archetype: String, note: &'static str },
    /// Exact facts, best first.
    Recalled(Vec<RecalledFact>),
    /// How many facts were reinforced.
    Reinforced { count: usize },
}

/// Why a statement cannot be executed.
#[derive(Debug, PartialEq, Eq)]
pub enum ExecError {
    NoSuchSubject(String),
    MissingBudget,
}

impl ExecError {
    /// What the error says.
    pub open spec fn says(self) -> Seq<char> {
        match self {
            ExecError::NoSuchSubject(s) => "no live archetype for '"@ + s@ + "'"@,
            ExecError::MissingBudget => "EVOKE requires WITHIN budget N tokens"@,
        }
    }

    /// What the error says.
    pub fn message(&self) -> (r: String)
        ensures
            r@ == self.says(),
    {
        match self {
            ExecError::NoSuchSubject(s) => {
                let mut m = "no live archetype for '".to_owned();
                m.append(s.as_str());
                m.append("'");
                m
            },
            ExecError::MissingBudget => "EVOKE requires WITHIN budget N tokens".to_owned(),
        }
    }
}

/// A perception as a source for predicates: its physics and its traits. There is no query, so there
/// is no resonance.
pub struct PerceptionFacts<'a, A: Arithmetic> {
    pub p: &'a Perception,
    pub now: Tick,
    pub arith: &'a A,
}

impl<'a, A: Arithmetic> Facts for PerceptionFacts<'a, A> {
    open spec fn ready(&self) -> bool {
        arithmetic::lawful(*self.arith)
    }

    open spec fn number(&self, field: Field) -> Option<Double> {
        match field {
            Field::Weight => Some(self.p.trace.life(*self.arith, self.now)),
            Field::Salience => Some(self.p.trace.salience),
            Field::Age => Some(self.p.trace.elapsed(*self.arith, self.now)),
            Field::Resonance => None,
            Field::Trait(_) => None,
        }
    }

    open spec fn word(&self, key: Seq<char>) -> Option<Seq<char>> {
        if self.p.traits@.contains_key(key) {
            Some(self.p.traits@[key])
        } else {
            None
        }
    }

    fn numeric(&self, field: &Field) -> (r: Option<Double>) {
        match field {
            Field::Weight => Some(self.p.weight(self.arith, self.now)),
            Field::Salience => Some(self.p.trace.salience),
            Field::Age => Some(self.p.trace.delta_t(self.arith, self.now)),
            Field::Resonance => None,
            Field::Trait(_) => None,
        }
    }

    fn text(&self, key: &str) -> (r: Option<String>) {
        self.p.traits.get(key)
    }
}

/// A fact and a query as a source for predicates: the physics of the fact and its resonance with the
/// query. Facts have no traits.
#[derive(Clone, Copy)]
pub struct FactFacts {
    pub weight: Double,
    pub salience: Double,
    pub age: Double,
    pub resonance: Double,
}

impl Facts for FactFacts {
    open spec fn ready(&self) -> bool {
        true
    }

    open spec fn number(&self, field: Field) -> Option<Double> {
        match field {
            Field::Weight => Some(self.weight),
            Field::Salience => Some(self.salience),
            Field::Age => Some(self.age),
            Field::Resonance => Some(self.resonance),
            Field::Trait(_) => None,
        }
    }

    open spec fn word(&self, key: Seq<char>) -> Option<Seq<char>> {
        None
    }

    fn numeric(&self, field: &Field) -> (r: Option<Double>) {
        match field {
            Field::Weight => Some(self.weight),
            Field::Salience => Some(self.salience),
            Field::Age => Some(self.age),
            Field::Resonance => Some(self.resonance),
            Field::Trait(_) => None,
        }
    }

    fn text(&self, key: &str) -> (r: Option<String>) {
        None
    }
}

/// What predicates see of a fact.
pub open spec fn fact_source<A: Arithmetic>(
    arith: A,
    f: FactView,
    query: Seq<Single>,
    now: Tick,
) -> FactFacts {
    FactFacts {
        weight: f.trace.life(arith, now),
        salience: f.trace.salience,
        age: f.trace.elapsed(arith, now),
        resonance: arithmetic::widened(
            arith,
            arithmetic::similarity(arith, f.embedding, query),
        ),
    }
}

/// The perceptions that satisfy a predicate.
pub open spec fn satisfying<A: Arithmetic>(
    arith: A,
    pred: Predicate,
    now: Tick,
) -> spec_fn(Perception) -> bool {
    |p: Perception| ast::holds(arith, pred, (PerceptionFacts { p: &p, now, arith: &arith }))
}

/// The facts about a subject that are alive and satisfy a predicate, if there is one.
pub open spec fn recallable<A: Arithmetic>(
    arith: A,
    subject: Seq<char>,
    filter: Option<Predicate>,
    query: Seq<Single>,
    now: Tick,
) -> spec_fn(FactView) -> bool {
    |f: FactView|
        {
            &&& f.subject == subject
            &&& f.trace.alive(arith, now, Double { bits: DEFAULT_THETA_FADE })
            &&& match filter {
                Some(pred) => ast::holds(arith, pred, fact_source(arith, f, query, now)),
                None => true,
            }
        }
}

/// The places of the `k` recallable facts that score best against a query, best first.
pub open spec fn recall_places<A: Arithmetic>(
    arith: A,
    s: Seq<FactView>,
    subject: Seq<char>,
    filter: Option<Predicate>,
    query: Seq<Single>,
    k: nat,
    now: Tick,
) -> Seq<int> {
    let at = selection::places(s, recallable(arith, subject, filter, query, now));
    ranking::top_places(at, factstore::scores_at(arith, s, at, query, now), k)
}

/// The text of traits: each name and its value, in the order of the names.
pub open spec fn traits_text(m: Map<Seq<char>, Seq<char>>) -> Seq<char> {
    let pairs = traits::by_name(m);
    text::joined(Seq::new(pairs.len(), |i: int| pairs[i].0 + " "@ + pairs[i].1), " "@)
}

/// The text of traits, for embedding.
pub fn traits_to_text(p: &Perceive) -> (r: String)
    ensures
        r@ == traits_text(p.traits@),
{
    let pairs = p.traits.pairs();
    let ghost all = traits::by_name(p.traits@);
    let mut parts: Vec<String> = Vec::new();
    let mut i: usize = 0;
    while i < pairs.len()
        invariant
            i <= pairs.len(),
            traits::pairs_of(pairs@) == all,
            parts.len() == i,
            forall|k: int|
                0 <= k < i ==> (#[trigger] parts@[k])@ == all[k].0 + " "@ + all[k].1,
        decreases pairs.len() - i,
    {
        assert(all[i as int] == (pairs@[i as int].0@, pairs@[i as int].1@));
        let mut part = pairs[i].0.clone();
        part.append(" ");
        part.append(pairs[i].1.as_str());
        parts.push(part);
        i += 1;
    }
    assert(text::texts_of(parts@) =~= Seq::new(
        all.len(),
        |i: int| all[i].0 + " "@ + all[i].1,
    ));
    text::join(&parts, " ")
}

/// The salience of a stimulus.
pub open spec fn salience_of(p: Perceive) -> Double {
    match p.salience {
        Some(s) => s,
        None => Double { bits: DEFAULT_SALIENCE },
    }
}

/// The half-life of a stimulus: a day where it states none.
pub open spec fn halflife_of(p: Perceive) -> Double {
    match p.halflife {
        Some(d) => d.seconds,
        None => Double { bits: ast::DAY_SECS },
    }
}

/// What `PERCEIVE` does: the stimulus, embedded by its traits, joins short-term memory.
pub open spec fn perceives<A: Arithmetic, P: Provider>(
    arith: A,
    engine: P,
    before: RuntimeView,
    p: Perceive,
    now: Tick,
    after: RuntimeView,
    r: Result<ExecResult, ExecError>,
) -> bool {
    &&& match r {
        Ok(ExecResult::Perceived { subject }) => subject@ == p.subject@,
        _ => false,
    }
    &&& exists|v: Seq<Single>, q: Perception|
        {
            &&& #[trigger] provider::embeds(engine, traits_text(p.traits@), v)
            &&& #[trigger] q@ == (PerceptionView {
                subject: p.subject@,
                embedding: v,
                traits: p.traits@,
                trace: EntropyTrace::fresh(arith, salience_of(p), halflife_of(p), now),
            })
            &&& after == (RuntimeView { short_term: before.short_term.push(q), ..before })
        }
}

/// Which perceptions `DISTILL` reads.
pub open spec fn distil_kept<A: Arithmetic>(
    arith: A,
    filter: Option<Predicate>,
    now: Tick,
) -> spec_fn(Perception) -> bool {
    match filter {
        Some(pred) => satisfying(arith, pred, now),
        None => runtime::everything(),
    }
}

/// What `DISTILL` does: one dream cycle for the subject.
pub open spec fn distils<A: Arithmetic>(
    arith: A,
    before: RuntimeView,
    d: Distill,
    now: Tick,
    after: RuntimeView,
    r: Result<ExecResult, ExecError>,
) -> bool {
    let dream = runtime::dreamt(
        arith,
        before.long_term,
        before.short_term,
        seq![d.subject@],
        now,
        before.cfg,
        distil_kept(arith, d.filter, now),
    );
    let awake = before.short_term.filter(
        perception::alive_at(arith, now, before.cfg.theta_fade),
    );
    &&& after == (RuntimeView { short_term: awake, long_term: dream.long_term, ..before })
    &&& match r {
        Ok(ExecResult::Dreamed(report)) => report == (BreathReport {
            distilled_subjects: dream.distilled as usize,
            perceptions_absorbed: dream.absorbed as usize,
            faded: (before.short_term.len() - awake.len()) as usize,
        }),
        _ => false,
    }
}

/// How much of the arc `EVOKE` asks for: resolution rules over projection, and without either it is
/// the whole arc.
pub open spec fn detail_of(e: Evoke) -> ArcDetail {
    match e.resolution {
        Some(Resolution::Point) => ArcDetail::Omitted,
        Some(Resolution::Summary) => ArcDetail::Summary,
        Some(Resolution::Arc) => ArcDetail::Full,
        None => match e.projecting {
            Some(Projection::Snapshot) => ArcDetail::Omitted,
            _ => ArcDetail::Full,
        },
    }
}

/// The request of an `EVOKE` with a budget.
pub open spec fn request_of<A: Arithmetic>(
    arith: A,
    e: Evoke,
    budget: usize,
    now: Tick,
) -> RequestView {
    RequestView {
        subject: e.subject@,
        token_budget: budget,
        since: match e.span {
            Some(d) => Some(
                arithmetic::difference64(arith, now, d.seconds).larger(Double::nought()),
            ),
            None => None,
        },
        arc_detail: detail_of(e),
        tokens_per_vector: evoke::DEFAULT_TOKENS_PER_VECTOR,
    }
}

/// What `EVOKE` does: it needs a budget and a live archetype; with traits to resonate with, it
/// focuses on the mode that resonates most. Memory does not change.
pub open spec fn evokes<A: Arithmetic, P: Provider>(
    arith: A,
    engine: P,
    before: RuntimeView,
    e: Evoke,
    now: Tick,
    after: RuntimeView,
    r: Result<ExecResult, ExecError>,
) -> bool {
    &&& after == before
    &&& match e.token_budget {
        None => r == Err::<ExecResult, ExecError>(ExecError::MissingBudget),
        Some(budget) => match evoke::evoked(
            arith,
            before.long_term,
            request_of(arith, e, budget, now),
            now,
        ) {
            None => match r {
                Err(ExecError::NoSuchSubject(s)) => s@ == e.subject@,
                _ => false,
            },
            Some(c) => match r {
                Ok(ExecResult::Evoked(ctx)) => if e.resonating_with.len() == 0 {
                    ctx@ == c
                } else {
                    exists|v: Seq<Single>|
                        {
                            &&& #[trigger] provider::embeds(
                                engine,
                                text::joined(text::texts_of(e.resonating_with@), " "@),
                                v,
                            )
                            &&& ctx@ == (ContextView {
                                resonating_mode: before.long_term[archetype::place_of(
                                    before.long_term,
                                    e.subject@,
                                )->0].resonant_label(arith, v),
                                ..c
                            })
                        }
                },
                _ => false,
            },
        },
    }
}

/// Which perceptions `FADE` keeps: with a predicate those that do not satisfy it, without one those
/// at or above the default threshold.
pub open spec fn fade_kept<A: Arithmetic>(
    arith: A,
    filter: Option<Predicate>,
    now: Tick,
) -> spec_fn(Perception) -> bool {
    match filter {
        Some(pred) => perception::failing(satisfying(arith, pred, now)),
        None => perception::alive_at(arith, now, Double { bits: DEFAULT_THETA_FADE }),
    }
}

/// What `FADE` does: a sweep of short-term memory.
pub open spec fn fades<A: Arithmetic>(
    arith: A,
    before: RuntimeView,
    f: Fade,
    now: Tick,
    after: RuntimeView,
    r: Result<ExecResult, ExecError>,
) -> bool {
    &&& after == (RuntimeView {
        short_term: before.short_term.filter(fade_kept(arith, f.filter, now)),
        ..before
    })
    &&& match r {
        Ok(ExecResult::Faded { swept }) => swept == before.short_term.len()
            - after.short_term.len(),
        _ => false,
    }
}

/// By which share `IMPRINT` lowers decay rates.
pub open spec fn consolidation_of(i: Imprint) -> Double {
    match i.resilience {
        Some(Resilience::High) => Double { bits: CONSOLIDATION_HIGH },
        Some(Resilience::Medium) => Double { bits: CONSOLIDATION_MEDIUM },
        _ => Double { bits: CONSOLIDATION_LOW },
    }
}

/// What `IMPRINT` does: it anchors the archetype of the subject, and refuses where there is none.
pub open spec fn imprints<A: Arithmetic>(
    arith: A,
    before: RuntimeView,
    i: Imprint,
    now: Tick,
    after: RuntimeView,
    r: Result<ExecResult, ExecError>,
) -> bool {
    match archetype::place_of(before.long_term, i.archetype@) {
        Some(k) => {
            &&& after == (RuntimeView {
                long_term: before.long_term.update(
                    k,
                    before.long_term[k].anchored(arith, now, consolidation_of(i)),
                ),
                ..before
            })
            &&& match r {
                Ok(ExecResult::Imprinted { archetype, note }) => archetype@ == i.archetype@
                    && note@ == "essence consolidated: Δt→0 and λ reduced (permanence gained)"@,
                _ => false,
            }
        },
        None => {
            &&& after == before
            &&& match r {
                Err(ExecError::NoSuchSubject(s)) => s@ == i.archetype@,
                _ => false,
            }
        },
    }
}

/// What `RECALL` does: the live facts about the subject that satisfy the predicate, best first, at
/// most `k`. Memory does not change.
pub open spec fn recalls<A: Arithmetic, P: Provider>(
    arith: A,
    engine: P,
    before: RuntimeView,
    q: Recall,
    now: Tick,
    after: RuntimeView,
    r: Result<ExecResult, ExecError>,
) -> bool {
    &&& after == before
    &&& match r {
        Ok(ExecResult::Recalled(facts)) => exists|v: Seq<Single>|
            {
                &&& #[trigger] provider::embeds(
                    engine,
                    text::joined(text::texts_of(q.resonating_with@), " "@),
                    v,
                )
                &&& factstore::recalls_of(facts@) == factstore::recalled_at(
                    arith,
                    before.facts,
                    recall_places(
                        arith,
                        before.facts,
                        q.subject@,
                        q.filter,
                        v,
                        q.k as nat,
                        now,
                    ),
                    v,
                    now,
                )
            },
        _ => false,
    }
}

/// What `REINFORCE` does: the facts that resonate best with the query are revisited.
pub open spec fn reinforces<A: Arithmetic, P: Provider>(
    arith: A,
    engine: P,
    before: RuntimeView,
    q: Reinforce,
    now: Tick,
    after: RuntimeView,
    r: Result<ExecResult, ExecError>,
) -> bool {
    exists|v: Seq<Single>|
        {
            let at = factstore::hits(
                arith,
                before.facts,
                q.subject@,
                v,
                q.k as nat,
                now,
                before.cfg.theta_fade,
            );
            &&& #[trigger] provider::embeds(
                engine,
                text::joined(text::texts_of(q.resonating_with@), " "@),
                v,
            )
            &&& after == (RuntimeView {
                facts: factstore::revisited_at(arith, before.facts, at, now),
                ..before
            })
            &&& match r {
                Ok(ExecResult::Reinforced { count }) => count == at.len(),
                _ => false,
            }
        }
}

/// What a statement does to a runtime, and what it yields.
pub open spec fn executes<A: Arithmetic, P: Provider>(
    arith: A,
    engine: P,
    before: RuntimeView,
    s: Statement,
    now: Tick,
    after: RuntimeView,
    r: Result<ExecResult, ExecError>,
) -> bool {
    match s {
        Statement::Perceive(p) => perceives(arith, engine, before, p, now, after, r),
        Statement::Distill(d) => distils(arith, before, d, now, after, r),
        Statement::Evoke(e) => evokes(arith, engine, before, e, now, after, r),
        Statement::Fade(f) => fades(arith, before, f, now, after, r),
        Statement::Imprint(i) => imprints(arith, before, i, now, after, r),
        Statement::Recall(q) => recalls(arith, engine, before, q, now, after, r),
        Statement::Reinforce(q) => reinforces(arith, engine, before, q, now, after, r),
    }
}

/// Whether a statement is well-posed: a stimulus has a positive half-life, and what is evoked within a
/// budget has milestones whose counts add up to a machine word.
pub open spec fn well_posed(before: RuntimeView, s: Statement) -> bool {
    match s {
        Statement::Perceive(p) => Double::nought().below(halflife_of(p)),
        Statement::Evoke(e) => e.token_budget is Some ==> before.countable_about(e.subject@),
        _ => true,
    }
}

/// Whether a statement can be executed: it is well-posed, and the memory can dream where it is to.
pub open spec fn executable(before: RuntimeView, s: Statement) -> bool {
    &&& well_posed(before, s)
    &&& match s {
        Statement::Distill(d) => before.can_dream(seq![d.subject@]),
        _ => true,
    }
}

/// Whether there is anything to dream of: perceptions in memory, or stimuli in the program.
pub open spec fn stirred(before: RuntimeView, stmts: Seq<Statement>) -> bool {
    before.short_term.len() > 0 || exists|i: int|
        0 <= i < stmts.len() && (#[trigger] stmts[i]) is Perceive
}

/// Whether a memory is ready for a statement within a bound: for the subject that it distils, if it
/// does.
pub open spec fn ready_for(long_term: Seq<ArchetypeView>, s: Statement, b: nat) -> bool {
    match s {
        Statement::Distill(d) => capacity::about_ready(long_term, d.subject@, b),
        _ => true,
    }
}

/// Whether a program can be executed: each statement is well-posed, and, for each that dreams, the
/// counts of its subject have room for as many dreams as there are statements; where there is anything
/// to dream of, at least one mode per cycle is allowed and the archetype of the subject decays.
pub open spec fn program_executable(before: RuntimeView, stmts: Seq<Statement>) -> bool {
    let load = stmts.len() * (before.short_term.len() + stmts.len());
    &&& forall|i: int| 0 <= i < stmts.len() ==> well_posed(before, #[trigger] stmts[i])
    &&& forall|i: int|
        0 <= i < stmts.len() && (#[trigger] stmts[i]) is Distill ==> load <= usize::MAX && (stirred(
            before,
            stmts,
        ) ==> before.cfg.distill.modes.max_modes > 0 && ready_for(
            before.long_term,
            stmts[i],
            (usize::MAX - load) as nat,
        ))
}

/// What a program does: each statement in its turn, on what the one before it left.
pub open spec fn runs<A: Arithmetic, P: Provider>(
    arith: A,
    engine: P,
    before: RuntimeView,
    stmts: Seq<Statement>,
    now: Tick,
    after: RuntimeView,
    r: Seq<Result<ExecResult, ExecError>>,
) -> bool {
    exists|states: Seq<RuntimeView>| #[trigger]
        runs_through(arith, engine, before, stmts, now, after, r, states)
}

/// What a program does, with the states that it goes through.
pub open spec fn runs_through<A: Arithmetic, P: Provider>(
    arith: A,
    engine: P,
    before: RuntimeView,
    stmts: Seq<Statement>,
    now: Tick,
    after: RuntimeView,
    r: Seq<Result<ExecResult, ExecError>>,
    states: Seq<RuntimeView>,
) -> bool {
    &&& states.len() == stmts.len() + 1
    &&& r.len() == stmts.len()
    &&& states[0] == before
    &&& states.last() == after
    &&& forall|i: int|
        0 <= i < stmts.len() ==> executes(
            arith,
            engine,
            states[i],
            #[trigger] stmts[i],
            now,
            states[i + 1],
            r[i],
        )
}

/// A statement that is refused changes nothing.
pub proof fn refused_statements_change_nothing<A: Arithmetic, P: Provider>(
    arith: A,
    engine: P,
    before: RuntimeView,
    s: Statement,
    now: Tick,
    after: RuntimeView,
    e: ExecError,
)
    requires
        executes(arith, engine, before, s, now, after, Err(e)),
    ensures
        after == before,
        s is Evoke || s is Imprint,
{
}

/// Every verb keeps to its layer: only `DISTILL` and `IMPRINT` change long-term memory, only
/// `REINFORCE` changes the facts, and none but `PERCEIVE`, `DISTILL` and `FADE` changes short-term
/// memory. In particular `EVOKE` and `RECALL` change nothing at all, and `FADE` leaves what was
/// contributed to the archetypes.
pub proof fn verbs_keep_to_their_layer<A: Arithmetic, P: Provider>(
    arith: A,
    engine: P,
    before: RuntimeView,
    s: Statement,
    now: Tick,
    after: RuntimeView,
    r: Result<ExecResult, ExecError>,
)
    requires
        executes(arith, engine, before, s, now, after, r),
    ensures
        s is Evoke || s is Recall ==> after == before,
        !(s is Distill || s is Imprint) ==> after.long_term == before.long_term,
        !(s is Reinforce) ==> after.facts == before.facts,
        !(s is Perceive || s is Distill || s is Fade) ==> after.short_term == before.short_term,
        after.cfg == before.cfg,
        after.sameness == before.sameness,
{
}

/// A statement adds at most one perception, and only one that perceives adds any.
proof fn statement_keeps_short_term<A: Arithmetic, P: Provider>(
    arith: A,
    engine: P,
    before: RuntimeView,
    s: Statement,
    now: Tick,
    after: RuntimeView,
    r: Result<ExecResult, ExecError>,
)
    requires
        executes(arith, engine, before, s, now, after, r),
    ensures
        after.short_term.len() <= before.short_term.len() + 1,
        !(s is Perceive) ==> after.short_term.len() <= before.short_term.len(),
{
    match s {
        Statement::Distill(d) => {
            selection::filter_is_shorter(
                before.short_term,
                perception::alive_at(arith, now, before.cfg.theta_fade),
            );
        },
        Statement::Fade(f) => {
            selection::filter_is_shorter(before.short_term, fade_kept(arith, f.filter, now));
        },
        _ => {},
    }
}

/// A statement adds no more to any count than the perceptions it reads: whatever subject the memory
/// was ready for, it stays ready for.
proof fn statement_keeps_room<A: Arithmetic, P: Provider>(
    arith: A,
    engine: P,
    before: RuntimeView,
    s: Statement,
    now: Tick,
    after: RuntimeView,
    r: Result<ExecResult, ExecError>,
    b: nat,
)
    requires
        arithmetic::lawful(arith),
        b + before.short_term.len() <= usize::MAX,
        s is Distill && before.short_term.len() > 0 ==> before.cfg.distill.modes.max_modes > 0
            && ready_for(before.long_term, s, b),
        executes(arith, engine, before, s, now, after, r),
    ensures
        forall|m: Seq<char>|
            capacity::about_ready(before.long_term, m, b) ==> #[trigger] capacity::about_ready(
                after.long_term,
                m,
                b + before.short_term.len(),
            ),
{
    let n = before.short_term.len();
    let c = b + n;
    match s {
        Statement::Distill(d) => {
            let names = seq![d.subject@];
            let kept = distil_kept(arith, d.filter, now);
            let seen = runtime::seen_in(arith, before.short_term, names, now, before.cfg, kept);
            assert(1 * n == n);
            selection::filter_is_shorter(
                before.short_term,
                perception::alive_where(arith, names[0], now, before.cfg.theta_fade, kept),
            );
            runtime::dreaming_fits(
                arith,
                before.long_term,
                names,
                seen,
                now,
                before.cfg,
                n,
                b,
            );
        },
        Statement::Imprint(i) => {
            assert forall|m: Seq<char>|
                capacity::about_ready(
                    before.long_term,
                    m,
                    b,
                ) implies #[trigger] capacity::about_ready(after.long_term, m, c) by {
                capacity::ready_within_more(before.long_term, m, b, c);
                if let Some(k) = archetype::place_of(before.long_term, i.archetype@) {
                    assert(archetype::first_about(before.long_term, i.archetype@, k));
                    let a = before.long_term[k];
                    let t = a.anchored(arith, now, consolidation_of(i));
                    archetype::updating_keeps_places(before.long_term, k, t, m);
                    if archetype::place_of(before.long_term, m) == Some(k) {
                        entropy::touching_never_raises_the_rate(
                            arith,
                            a.trace,
                            now,
                            consolidation_of(i),
                        );
                        entropy::touching_keeps_forgetting_possible(
                            arith,
                            a.trace,
                            now,
                            consolidation_of(i),
                        );
                        assert forall|j: int| 0 <= j < t.modes.len() implies capacity::mode_within(
                            #[trigger] t.modes[j],
                            c,
                        ) by {
                            assert(capacity::mode_within(a.modes[j], c));
                        }
                    }
                }
            }
        },
        _ => {
            assert forall|m: Seq<char>|
                capacity::about_ready(
                    before.long_term,
                    m,
                    b,
                ) implies #[trigger] capacity::about_ready(after.long_term, m, c) by {
                capacity::ready_within_more(before.long_term, m, b, c);
            }
        },
    }
}

/// The executor: a runtime and an inference engine.
pub struct Executor<P: Provider, A: Arithmetic> {
    rt: CognitiveRuntime<A>,
    provider: P,
}

impl<P: Provider, A: Arithmetic> View for Executor<P, A> {
    type V = RuntimeView;

    closed spec fn view(&self) -> RuntimeView {
        self.rt@
    }
}

impl<P: Provider, A: Arithmetic> Executor<P, A> {
    /// The arithmetic of the runtime.
    pub closed spec fn arithmetic(&self) -> A {
        self.rt.arithmetic()
    }

    /// The inference engine.
    pub closed spec fn engine(&self) -> P {
        self.provider
    }

    /// The runtime computes lawfully.
    pub open spec fn lawful(&self) -> bool {
        arithmetic::lawful(self.arithmetic())
    }

    /// An executor over a runtime.
    pub fn new(rt: CognitiveRuntime<A>, provider: P) -> (r: Executor<P, A>)
        ensures
            r@ == rt@,
            r.arithmetic() == rt.arithmetic(),
            r.engine() == provider,
    {
        Executor { rt, provider }
    }

    /// The runtime.
    pub fn runtime(&self) -> (r: &CognitiveRuntime<A>)
        ensures
            r@ == self@,
            r.arithmetic() == self.arithmetic(),
    {
        &self.rt
    }

    /// The runtime, to be changed.
    pub fn runtime_mut(&mut self) -> (r: &mut CognitiveRuntime<A>)
        ensures
            r@ == old(self)@,
            r.arithmetic() == old(self).arithmetic(),
            final(self)@ == final(r)@,
            final(self).arithmetic() == final(r).arithmetic(),
            final(self).engine() == old(self).engine(),
    {
        &mut self.rt
    }

    /// The inference engine.
    pub fn provider(&self) -> (r: &P)
        ensures
            *r == self.engine(),
    {
        &self.provider
    }

    /// Executes a statement at `now`.
    pub fn execute(&mut self, stmt: &Statement, now: Tick) -> (r: Result<ExecResult, ExecError>)
        requires
            old(self).lawful(),
            executable(old(self)@, *stmt),
        ensures
            final(self)@.cfg == old(self)@.cfg,
            forall|n: Seq<char>|
                old(self)@.countable_about(n) ==> #[trigger] final(self)@.countable_about(n),
            archetype::decaying(old(self)@.long_term) ==> archetype::decaying(
                final(self)@.long_term,
            ),
            final(self).arithmetic() == old(self).arithmetic(),
            final(self).engine() == old(self).engine(),
            executes(
                old(self).arithmetic(),
                old(self).engine(),
                old(self)@,
                *stmt,
                now,
                final(self)@,
                r,
            ),
    {
        match stmt {
            Statement::Perceive(p) => self.exec_perceive(p, now),
            Statement::Distill(d) => self.exec_distill(d, now),
            Statement::Evoke(e) => self.exec_evoke(e, now),
            Statement::Fade(f) => self.exec_fade(f, now),
            Statement::Imprint(i) => self.exec_imprint(i, now),
            Statement::Recall(q) => self.exec_recall(q, now),
            Statement::Reinforce(q) => self.exec_reinforce(q, now),
        }
    }

    /// Whether a program can be executed.
    pub fn can_execute(&self, stmts: &Vec<Statement>) -> (r: bool)
        ensures
            r == program_executable(self@, stmts@),
    {
        let held: usize = self.rt.short_term_len();
        let mut dreaming: bool = false;
        let mut stirring: bool = held > 0;
        let mut i: usize = 0;
        while i < stmts.len()
            invariant
                i <= stmts.len(),
                held == self@.short_term.len(),
                forall|k: int| 0 <= k < i ==> well_posed(self@, #[trigger] stmts@[k]),
                dreaming == exists|k: int| 0 <= k < i && (#[trigger] stmts@[k]) is Distill,
                stirring == (held > 0 || exists|k: int|
                    0 <= k < i && (#[trigger] stmts@[k]) is Perceive),
            decreases stmts.len() - i,
        {
            match &stmts[i] {
                Statement::Perceive(p) => {
                    let halflife = match &p.halflife {
                        Some(d) => d.seconds,
                        None => Double { bits: ast::DAY_SECS },
                    };
                    if !Double::zero().lt(halflife) {
                        assert(!well_posed(self@, stmts@[i as int]));
                        return false;
                    }
                    stirring = true;
                },
                Statement::Distill(d) => {
                    dreaming = true;
                },
                Statement::Evoke(e) => {
                    if e.token_budget.is_some() && !capacity::is_countable(
                        self.rt.long_term(),
                        e.subject.as_str(),
                    ) {
                        assert(!well_posed(self@, stmts@[i as int]));
                        return false;
                    }
                },
                _ => {},
            }
            i += 1;
        }
        if !dreaming {
            return true;
        }
        let n: usize = stmts.len();
        let most: u128 = held as u128 + n as u128;
        if most > usize::MAX as u128 {
            assert(n * most > usize::MAX) by (nonlinear_arith)
                requires
                    n >= 1,
                    most > usize::MAX,
            ;
            return false;
        }
        assert(0 <= n * most <= 0xffff_ffff_ffff_ffff * 0xffff_ffff_ffff_ffff) by (nonlinear_arith)
            requires
                0 <= n <= 0xffff_ffff_ffff_ffff,
                0 <= most <= 0xffff_ffff_ffff_ffff,
        ;
        let load: u128 = (n as u128) * most;
        if load > usize::MAX as u128 {
            return false;
        }
        if !stirring {
            return true;
        }
        if self.rt.max_modes() == 0 {
            return false;
        }
        let bound: usize = usize::MAX - load as usize;
        i = 0;
        while i < stmts.len()
            invariant
                i <= stmts.len(),
                stirred(self@, stmts@),
                load == stmts@.len() * (self@.short_term.len() + stmts@.len()),
                load <= usize::MAX,
                bound == usize::MAX - load,
                forall|k: int|
                    0 <= k < i ==> ready_for(self@.long_term, #[trigger] stmts@[k], bound as nat),
            decreases stmts.len() - i,
        {
            if let Statement::Distill(d) = &stmts[i] {
                if !capacity::is_ready(self.rt.long_term(), d.subject.as_str(), bound) {
                    assert(!ready_for(self@.long_term, stmts@[i as int], bound as nat));
                    return false;
                }
            }
            i += 1;
        }
        true
    }

    /// Executes the statements of a program, one after the other, at `now`.
    pub fn execute_program(&mut self, stmts: &Vec<Statement>, now: Tick) -> (r: Vec<
        Result<ExecResult, ExecError>,
    >)
        requires
            old(self).lawful(),
            program_executable(old(self)@, stmts@),
        ensures
            final(self)@.cfg == old(self)@.cfg,
            forall|n: Seq<char>|
                old(self)@.countable_about(n) ==> #[trigger] final(self)@.countable_about(n),
            archetype::decaying(old(self)@.long_term) ==> archetype::decaying(
                final(self)@.long_term,
            ),
            final(self).arithmetic() == old(self).arithmetic(),
            final(self).engine() == old(self).engine(),
            runs(
                old(self).arithmetic(),
                old(self).engine(),
                old(self)@,
                stmts@,
                now,
                final(self)@,
                r@,
            ),
    {
        let ghost before = self@;
        let ghost arith = self.arithmetic();
        let ghost engine = self.engine();
        let ghost n = stmts@.len();
        let ghost per = before.short_term.len() + n;
        let ghost stirring = stirred(before, stmts@);
        let ghost mut states: Seq<RuntimeView> = seq![before];
        let mut out: Vec<Result<ExecResult, ExecError>> = Vec::new();
        let mut i: usize = 0;
        while i < stmts.len()
            invariant
                i <= stmts.len(),
                n == stmts@.len(),
                per == before.short_term.len() + n,
                stirring == stirred(before, stmts@),
                self.lawful(),
                self.arithmetic() == arith,
                self.engine() == engine,
                self@.cfg == before.cfg,
                self@.short_term.len() <= before.short_term.len() + i,
                !stirring ==> self@.short_term.len() == 0,
                forall|m: Seq<char>|
                    before.countable_about(m) ==> #[trigger] self@.countable_about(m),
                archetype::decaying(before.long_term) ==> archetype::decaying(self@.long_term),
                forall|k: int|
                    0 <= k < stmts@.len() && (#[trigger] stmts@[k]) is Distill ==> n * per
                        <= usize::MAX && (stirring ==> before.cfg.distill.modes.max_modes > 0
                        && ready_for(
                        self@.long_term,
                        stmts@[k],
                        (usize::MAX - (n - i) * per) as nat,
                    )),
                forall|k: int| 0 <= k < stmts@.len() ==> well_posed(before, #[trigger] stmts@[k]),
                out.len() == i,
                states.len() == i + 1,
                states[0] == before,
                states.last() == self@,
                forall|k: int|
                    0 <= k < i ==> executes(
                        arith,
                        engine,
                        states[k],
                        #[trigger] stmts@[k],
                        now,
                        states[k + 1],
                        out@[k],
                    ),
            decreases stmts.len() - i,
        {
            let ghost here = self@;
            let ghost bound = (usize::MAX - (n - i) * per) as nat;
            proof {
                assert((n - i) * per == (n - (i + 1)) * per + per) by (nonlinear_arith);
                assert((n - (i + 1)) * per >= 0) by (nonlinear_arith)
                    requires
                        n - (i + 1) >= 0,
                        per >= 0,
                ;
                assert(here.short_term.len() <= per);
                assert(1 * here.short_term.len() == here.short_term.len());
                assert((n - i) * per <= n * per) by (nonlinear_arith)
                    requires
                        0 <= i <= n,
                        per >= 0,
                ;
                assert(well_posed(before, stmts@[i as int]));
                if let Statement::Distill(d) = stmts@[i as int] {
                    assert(stmts@[i as int] is Distill);
                    if here.short_term.len() > 0 {
                        capacity::ready_within_more(
                            here.long_term,
                            d.subject@,
                            bound,
                            (usize::MAX - here.short_term.len()) as nat,
                        );
                    }
                }
                assert(executable(here, stmts@[i as int]));
            }
            let r = self.execute(&stmts[i], now);
            proof {
                statement_keeps_short_term(arith, engine, here, stmts@[i as int], now, self@, r);
                if n * per <= usize::MAX && stirring {
                    if stmts@[i as int] is Distill {
                        assert(ready_for(here.long_term, stmts@[i as int], bound));
                    }
                    statement_keeps_room(
                        arith,
                        engine,
                        here,
                        stmts@[i as int],
                        now,
                        self@,
                        r,
                        bound,
                    );
                    assert forall|k: int|
                        0 <= k < stmts@.len() && (#[trigger] stmts@[k]) is Distill implies ready_for(
                        self@.long_term,
                        stmts@[k],
                        (usize::MAX - (n - (i + 1)) * per) as nat,
                    ) by {
                        if let Statement::Distill(d) = stmts@[k] {
                            assert(ready_for(here.long_term, stmts@[k], bound));
                            assert(capacity::about_ready(
                                self@.long_term,
                                d.subject@,
                                bound + here.short_term.len(),
                            ));
                            capacity::ready_within_more(
                                self@.long_term,
                                d.subject@,
                                bound + here.short_term.len(),
                                (usize::MAX - (n - (i + 1)) * per) as nat,
                            );
                        }
                    }
                }
                states = states.push(self@);
            }
            out.push(r);
            i += 1;
        }
        proof {
            assert(runs_through(arith, engine, before, stmts@, now, self@, out@, states));
        }
        out
    }

    fn exec_perceive(&mut self, p: &Perceive, now: Tick) -> (r: Result<ExecResult, ExecError>)
        requires
            old(self).lawful(),
            Double::nought().below(halflife_of(*p)),
        ensures
            final(self)@.cfg == old(self)@.cfg,
            forall|n: Seq<char>|
                old(self)@.countable_about(n) ==> #[trigger] final(self)@.countable_about(n),
            archetype::decaying(old(self)@.long_term) ==> archetype::decaying(
                final(self)@.long_term,
            ),
            final(self).arithmetic() == old(self).arithmetic(),
            final(self).engine() == old(self).engine(),
            perceives(
                old(self).arithmetic(),
                old(self).engine(),
                old(self)@,
                *p,
                now,
                final(self)@,
                r,
            ),
    {
        let words = traits_to_text(p);
        let embedding = provider::embed(&self.provider, words.as_str());
        let ghost v = embedding@;
        let salience = match p.salience {
            Some(s) => s,
            None => Double { bits: DEFAULT_SALIENCE },
        };
        let halflife = match p.halflife {
            Some(d) => d.seconds,
            None => Double { bits: ast::DAY_SECS },
        };
        let mut q = Perception::new(
            self.rt.arith(),
            p.subject.as_str(),
            embedding,
            salience,
            halflife,
            now,
        );
        q.traits = p.traits.clone();
        let ghost seen = q;
        self.rt.perceive(q);
        proof {
            assert(seen@ == (PerceptionView {
                subject: p.subject@,
                embedding: v,
                traits: p.traits@,
                trace: EntropyTrace::fresh(
                    old(self).arithmetic(),
                    salience_of(*p),
                    halflife_of(*p),
                    now,
                ),
            }));
            assert(provider::embeds(old(self).engine(), traits_text(p.traits@), v));
        }
        Ok(ExecResult::Perceived { subject: p.subject.clone() })
    }

    fn exec_distill(&mut self, d: &Distill, now: Tick) -> (r: Result<ExecResult, ExecError>)
        requires
            old(self).lawful(),
            old(self)@.can_dream(seq![d.subject@]),
        ensures
            final(self)@.cfg == old(self)@.cfg,
            forall|n: Seq<char>|
                old(self)@.countable_about(n) ==> #[trigger] final(self)@.countable_about(n),
            archetype::decaying(old(self)@.long_term) ==> archetype::decaying(
                final(self)@.long_term,
            ),
            final(self).arithmetic() == old(self).arithmetic(),
            final(self).engine() == old(self).engine(),
            distils(old(self).arithmetic(), old(self)@, *d, now, final(self)@, r),
    {
        let subjects: [&str; 1] = [d.subject.as_str()];
        proof {
            assert(text::names_of(subjects@) =~= seq![d.subject@]);
        }
        let report = match &d.filter {
            None => self.rt.breathe(&subjects, now),
            Some(pred) => {
                let keep = |arith: &A, p: &Perception| -> (b: bool)
                    requires
                        arithmetic::lawful(*arith),
                    ensures
                        b == ast::holds(*arith, *pred, (PerceptionFacts { p, now, arith })),
                    { eval_on(arith, pred, p, now) };
                self.rt.dream_kept(
                    &subjects,
                    now,
                    &keep,
                    Ghost(satisfying(self.rt.arithmetic(), *pred, now)),
                )
            },
        };
        Ok(ExecResult::Dreamed(report))
    }

    fn exec_evoke(&mut self, e: &Evoke, now: Tick) -> (r: Result<ExecResult, ExecError>)
        requires
            old(self).lawful(),
            e.token_budget is Some ==> old(self)@.countable_about(e.subject@),
        ensures
            final(self)@.cfg == old(self)@.cfg,
            forall|n: Seq<char>|
                old(self)@.countable_about(n) ==> #[trigger] final(self)@.countable_about(n),
            archetype::decaying(old(self)@.long_term) ==> archetype::decaying(
                final(self)@.long_term,
            ),
            final(self).arithmetic() == old(self).arithmetic(),
            final(self).engine() == old(self).engine(),
            evokes(
                old(self).arithmetic(),
                old(self).engine(),
                old(self)@,
                *e,
                now,
                final(self)@,
                r,
            ),
    {
        let token_budget: usize = match e.token_budget {
            Some(n) => n,
            None => {
                return Err(ExecError::MissingBudget);
            },
        };
        let since: Option<Tick> = match e.span {
            Some(d) => Some(
                arithmetic::minus64(self.rt.arith(), now, d.seconds).max(Double::zero()),
            ),
            None => None,
        };
        let arc_detail = match e.resolution {
            Some(Resolution::Point) => ArcDetail::Omitted,
            Some(Resolution::Summary) => ArcDetail::Summary,
            Some(Resolution::Arc) => ArcDetail::Full,
            None => match e.projecting {
                Some(Projection::Snapshot) => ArcDetail::Omitted,
                _ => ArcDetail::Full,
            },
        };
        let req = EvokeRequest {
            subject: e.subject.clone(),
            token_budget,
            since,
            arc_detail,
            tokens_per_vector: evoke::DEFAULT_TOKENS_PER_VECTOR,
        };
        assert(req@ == request_of(old(self).arithmetic(), *e, token_budget, now));
        let mut ctx = match self.rt.evoke(&req, now) {
            Some(c) => c,
            None => {
                return Err(ExecError::NoSuchSubject(e.subject.clone()));
            },
        };
        if e.resonating_with.len() > 0 {
            let ghost plain = ctx@;
            let words = text::join(&e.resonating_with, " ");
            let query = provider::embed(&self.provider, words.as_str());
            let mode = match self.rt.long_term().get(e.subject.as_str()) {
                Some(a) => a.resonant_mode_label(self.rt.arith(), &query),
                None => None,
            };
            ctx.resonating_mode = mode;
            proof {
                assert(provider::embeds(
                    old(self).engine(),
                    text::joined(text::texts_of(e.resonating_with@), " "@),
                    query@,
                ));
                assert(ctx@ == (ContextView {
                    resonating_mode: old(self)@.long_term[archetype::place_of(
                        old(self)@.long_term,
                        e.subject@,
                    )->0].resonant_label(old(self).arithmetic(), query@),
                    ..plain
                }));
            }
        }
        Ok(ExecResult::Evoked(ctx))
    }

    fn exec_fade(&mut self, f: &Fade, now: Tick) -> (r: Result<ExecResult, ExecError>)
        requires
            old(self).lawful(),
        ensures
            final(self)@.cfg == old(self)@.cfg,
            forall|n: Seq<char>|
                old(self)@.countable_about(n) ==> #[trigger] final(self)@.countable_about(n),
            archetype::decaying(old(self)@.long_term) ==> archetype::decaying(
                final(self)@.long_term,
            ),
            final(self).arithmetic() == old(self).arithmetic(),
            final(self).engine() == old(self).engine(),
            fades(old(self).arithmetic(), old(self)@, *f, now, final(self)@, r),
    {
        let swept: usize = match &f.filter {
            None => self.rt.fade_only(now, Double { bits: DEFAULT_THETA_FADE }),
            Some(pred) => {
                let drop_if = |arith: &A, p: &Perception| -> (b: bool)
                    requires
                        arithmetic::lawful(*arith),
                    ensures
                        b == ast::holds(*arith, *pred, (PerceptionFacts { p, now, arith })),
                    { eval_on(arith, pred, p, now) };
                self.rt.forget(&drop_if, Ghost(satisfying(self.rt.arithmetic(), *pred, now)))
            },
        };
        Ok(ExecResult::Faded { swept })
    }

    fn exec_imprint(&mut self, i: &Imprint, now: Tick) -> (r: Result<ExecResult, ExecError>)
        requires
            old(self).lawful(),
        ensures
            final(self)@.cfg == old(self)@.cfg,
            forall|n: Seq<char>|
                old(self)@.countable_about(n) ==> #[trigger] final(self)@.countable_about(n),
            archetype::decaying(old(self)@.long_term) ==> archetype::decaying(
                final(self)@.long_term,
            ),
            final(self).arithmetic() == old(self).arithmetic(),
            final(self).engine() == old(self).engine(),
            imprints(old(self).arithmetic(), old(self)@, *i, now, final(self)@, r),
    {
        let consolidation = match i.resilience {
            Some(Resilience::High) => Double { bits: CONSOLIDATION_HIGH },
            Some(Resilience::Medium) => Double { bits: CONSOLIDATION_MEDIUM },
            _ => Double { bits: CONSOLIDATION_LOW },
        };
        if self.rt.consolidate(i.archetype.as_str(), now, consolidation) {
            Ok(
                ExecResult::Imprinted {
                    archetype: i.archetype.clone(),
                    note: "essence consolidated: Δt→0 and λ reduced (permanence gained)",
                },
            )
        } else {
            Err(ExecError::NoSuchSubject(i.archetype.clone()))
        }
    }

    fn exec_recall(&mut self, q: &Recall, now: Tick) -> (r: Result<ExecResult, ExecError>)
        requires
            old(self).lawful(),
        ensures
            final(self)@.cfg == old(self)@.cfg,
            forall|n: Seq<char>|
                old(self)@.countable_about(n) ==> #[trigger] final(self)@.countable_about(n),
            archetype::decaying(old(self)@.long_term) ==> archetype::decaying(
                final(self)@.long_term,
            ),
            final(self).arithmetic() == old(self).arithmetic(),
            final(self).engine() == old(self).engine(),
            recalls(
                old(self).arithmetic(),
                old(self).engine(),
                old(self)@,
                *q,
                now,
                final(self)@,
                r,
            ),
    {
        let words = text::join(&q.resonating_with, " ");
        let query = provider::embed(&self.provider, words.as_str());
        let found = recall_facts(
            self.rt.arith(),
            &self.rt.facts().iter(),
            q,
            &query,
            now,
        );
        proof {
            assert(provider::embeds(
                old(self).engine(),
                text::joined(text::texts_of(q.resonating_with@), " "@),
                query@,
            ));
        }
        Ok(ExecResult::Recalled(found))
    }

    fn exec_reinforce(&mut self, q: &Reinforce, now: Tick) -> (r: Result<ExecResult, ExecError>)
        requires
            old(self).lawful(),
        ensures
            final(self)@.cfg == old(self)@.cfg,
            forall|n: Seq<char>|
                old(self)@.countable_about(n) ==> #[trigger] final(self)@.countable_about(n),
            archetype::decaying(old(self)@.long_term) ==> archetype::decaying(
                final(self)@.long_term,
            ),
            final(self).arithmetic() == old(self).arithmetic(),
            final(self).engine() == old(self).engine(),
            reinforces(
                old(self).arithmetic(),
                old(self).engine(),
                old(self)@,
                *q,
                now,
                final(self)@,
                r,
            ),
    {
        let words = text::join(&q.resonating_with, " ");
        let query = provider::embed(&self.provider, words.as_str());
        let reinforced = self.rt.recall(q.subject.as_str(), &query, q.k, now);
        proof {
            assert(provider::embeds(
                old(self).engine(),
                text::joined(text::texts_of(q.resonating_with@), " "@),
                query@,
            ));
            assert(factstore::recalls_of(reinforced@).len() == reinforced.len());
        }
        Ok(ExecResult::Reinforced { count: reinforced.len() })
    }
}

/// Evaluates a predicate against a perception.
fn eval_on<A: Arithmetic>(arith: &A, pred: &Predicate, p: &Perception, now: Tick) -> (r: bool)
    requires
        arithmetic::lawful(*arith),
    ensures
        r == ast::holds(*arith, *pred, (PerceptionFacts { p, now, arith })),
{
    pred.eval(arith, &PerceptionFacts { p, now, arith })
}

/// The live facts about a subject that satisfy a predicate, best first, at most `k`.
fn recall_facts<A: Arithmetic>(
    arith: &A,
    facts: &Vec<&Fact>,
    q: &Recall,
    query: &Vector,
    now: Tick,
) -> (r: Vec<RecalledFact>)
    requires
        arithmetic::lawful(*arith),
    ensures
        ({
            let s = factstore::facts_of(selection::targets(facts@));
            let at = recall_places(*arith, s, q.subject@, q.filter, query@, q.k as nat, now);
            factstore::recalls_of(r@) == factstore::recalled_at(*arith, s, at, query@, now)
        }),
{
    let ghost all = factstore::facts_of(selection::targets(facts@));
    let ghost kept = recallable(*arith, q.subject@, q.filter, query@, now);
    let mut places: Vec<usize> = Vec::new();
    let mut scores: Vec<Double> = Vec::new();
    let mut i: usize = 0;
    proof {
        assert(all.take(0) =~= Seq::empty());
        assert(ranking::positions(places@) =~= selection::places(all.take(0), kept));
    }
    while i < facts.len()
        invariant
            arithmetic::lawful(*arith),
            i <= facts.len(),
            all == factstore::facts_of(selection::targets(facts@)),
            kept == recallable(*arith, q.subject@, q.filter, query@, now),
            ranking::positions(places@) == selection::places(all.take(i as int), kept),
            places.len() == scores.len(),
            forall|j: int| 0 <= j < places.len() ==> #[trigger] places@[j] < i,
            forall|j: int|
                0 <= j < places.len() ==> #[trigger] scores@[j] == all[places@[j] as int].score(
                    *arith,
                    query@,
                    now,
                ),
        decreases facts.len() - i,
    {
        let f: &Fact = facts[i];
        let ghost had = ranking::positions(places@);
        proof {
            assert(all.take(i + 1).drop_last() =~= all.take(i as int));
            assert(all.take(i + 1).last() == f@);
        }
        let life = f.trace.weight(arith, now);
        let relevance = arithmetic::cosine(arith, &f.embedding, query);
        let source = FactFacts {
            weight: life,
            salience: f.trace.salience,
            age: f.trace.delta_t(arith, now),
            resonance: arithmetic::to_double(arith, relevance),
        };
        assert(source == fact_source(*arith, f@, query@, now));
        let passes: bool = text::same(f.subject.as_str(), q.subject.as_str()) && (Double {
            bits: DEFAULT_THETA_FADE,
        }).le(life) && match &q.filter {
            None => true,
            Some(pred) => pred.eval(arith, &source),
        };
        assert(passes == kept(f@));
        if passes {
            places.push(i);
            scores.push(archetype::score(arith, relevance, life));
            assert(ranking::positions(places@) =~= had.push(i as int));
        }
        i += 1;
    }
    let chosen = ranking::top(&places, &scores, q.k);
    let ghost at = ranking::positions(chosen@);
    proof {
        assert(all.take(i as int) =~= all);
        let open = selection::places(all, kept);
        assert(scores@ =~= factstore::scores_at(*arith, all, open, query@, now)) by {
            assert forall|j: int| 0 <= j < scores.len() implies #[trigger] scores@[j]
                == factstore::scores_at(*arith, all, open, query@, now)[j] by {
                assert(ranking::positions(places@)[j] == places@[j] as int);
            }
        }
    }
    let mut out: Vec<RecalledFact> = Vec::new();
    let mut j: usize = 0;
    while j < chosen.len()
        invariant
            arithmetic::lawful(*arith),
            j <= chosen.len(),
            all == factstore::facts_of(selection::targets(facts@)),
            at == ranking::positions(chosen@),
            forall|n: int| 0 <= n < places.len() ==> #[trigger] places@[n] < facts.len(),
            forall|n: int| 0 <= n < chosen.len() ==> places@.contains(#[trigger] chosen@[n]),
            out.len() == j,
            forall|n: int|
                0 <= n < j ==> (#[trigger] out@[n])@ == factstore::recalled_at(
                    *arith,
                    all,
                    at,
                    query@,
                    now,
                )[n],
        decreases chosen.len() - j,
    {
        proof {
            assert(places@.contains(chosen@[j as int]));
        }
        let f: &Fact = facts[chosen[j]];
        assert(all[chosen@[j as int] as int] == f@);
        let life = f.trace.weight(arith, now);
        let relevance = arithmetic::cosine(arith, &f.embedding, query);
        out.push(
            RecalledFact {
                text: f.text.clone(),
                provenance: f.provenance.clone(),
                score: archetype::score(arith, relevance, life),
            },
        );
        j += 1;
    }
    assert(factstore::recalls_of(out@) =~= factstore::recalled_at(*arith, all, at, query@, now));
    out
}

/// `PERCEIVE`: exactly one perception is added, behind all others, about the subject of the statement and
/// with its traits, embedded by their text. It weighs what the statement says, or a half, and decays with
/// the half-life that it says, or a day; its clock starts now. Nothing else changes.
pub proof fn perceiving_adds_one_stimulus<A: Arithmetic, P: Provider>(
    arith: A,
    engine: P,
    before: RuntimeView,
    p: Perceive,
    now: Tick,
    after: RuntimeView,
    r: Result<ExecResult, ExecError>,
    rate: Double,
)
    requires
        arithmetic::lawful(arith),
        executes(arith, engine, before, Statement::Perceive(p), now, after, r),
        call_ensures(
            A::div64,
            (
                &arith,
                Double { bits: entropy::LN2 },
                (match p.halflife {
                    Some(d) => d.seconds,
                    None => Double { bits: 0x40f5_1800_0000_0000 },
                }),
            ),
            rate,
        ),
    ensures
        r matches Ok(ExecResult::Perceived { subject }) && subject@ == p.subject@,
        after.short_term.len() == before.short_term.len() + 1,
        forall|i: int|
            0 <= i < before.short_term.len() ==> #[trigger] after.short_term[i]
                == before.short_term[i],
        ({
            let q = after.short_term.last()@;
            &&& q.subject == p.subject@
            &&& q.traits == p.traits@
            &&& q.trace.salience == (match p.salience {
                Some(s) => s,
                None => Double { bits: 0x3fe0_0000_0000_0000 },
            })
            &&& q.trace.lambda == rate
            &&& q.trace.reinforcement.bits == 0
            &&& q.trace.last_touch == now
            &&& provider::embeds(engine, traits_text(p.traits@), q.embedding)
        }),
        after.long_term == before.long_term,
        after.facts == before.facts,
        after.sameness == before.sameness,
        after.cfg == before.cfg,
{
    reveal(arithmetic::lawful);
    let (v, q) = choose|v: Seq<Single>, q: Perception|
        {
            &&& #[trigger] provider::embeds(engine, traits_text(p.traits@), v)
            &&& #[trigger] q@ == (PerceptionView {
                subject: p.subject@,
                embedding: v,
                traits: p.traits@,
                trace: EntropyTrace::fresh(arith, salience_of(p), halflife_of(p), now),
            })
            &&& after == (RuntimeView { short_term: before.short_term.push(q), ..before })
        };
    assert(after.short_term.last() == q);
}

/// The text of traits, which is embedded: each name, a space and its value, in the order of the names,
/// with a space between each two.
pub proof fn traits_are_worded_by_name(s: Seq<(Seq<char>, Seq<char>)>)
    requires
        forall|i: int, j: int|
            0 <= i < j < s.len() ==> text::before((#[trigger] s[i]).0, (#[trigger] s[j]).0),
    ensures
        traits_text(traits::map_of(s)) == text::joined(
            Seq::new(s.len(), |i: int| s[i].0 + " "@ + s[i].1),
            " "@,
        ),
{
    traits::traits_are_read_by_name(s);
}

/// What predicates read of a perception: its weight, its salience, the seconds since its last touch, and
/// its traits; there is no query to resonate with.
pub proof fn predicates_read_perceptions<A: Arithmetic>(
    arith: A,
    p: Perception,
    now: Tick,
    key: String,
)
    ensures
        ({
            let f = PerceptionFacts { p: &p, now, arith: &arith };
            &&& f.number(Field::Weight) == Some(p.trace.life(arith, now))
            &&& f.number(Field::Salience) == Some(p.trace.salience)
            &&& f.number(Field::Age) == Some(p.trace.elapsed(arith, now))
            &&& f.number(Field::Resonance) is None
            &&& f.number(Field::Trait(key)) is None
            &&& f.word(key@) is Some <==> p.traits@.contains_key(key@)
            &&& f.word(key@) is Some ==> f.word(key@)->0 == p.traits@[key@]
        }),
{
}

/// What predicates read of a fact: its weight, its salience, the seconds since its last touch, and how
/// much it resonates with the query; it has no traits.
pub proof fn predicates_read_facts<A: Arithmetic>(
    arith: A,
    fact: FactView,
    query: Seq<Single>,
    now: Tick,
    key: String,
)
    ensures
        ({
            let f = fact_source(arith, fact, query, now);
            &&& f.number(Field::Weight) == Some(fact.trace.life(arith, now))
            &&& f.number(Field::Salience) == Some(fact.trace.salience)
            &&& f.number(Field::Age) == Some(fact.trace.elapsed(arith, now))
            &&& f.number(Field::Resonance) == Some(
                arithmetic::widened(
                    arith,
                    arithmetic::similarity(arith, fact.embedding, query),
                ),
            )
            &&& f.number(Field::Trait(key)) is None
            &&& f.word(key@) is None
        }),
{
}

/// `DISTILL`: one dream cycle over the live perceptions of the subject, of those that satisfy the
/// predicate where there is one. What they collapse into is imprinted; where they collapse into nothing,
/// no archetype changes. Then short-term memory keeps what weighs the threshold or more.
pub proof fn distilling_dreams_of_one_subject<A: Arithmetic, P: Provider>(
    arith: A,
    engine: P,
    before: RuntimeView,
    d: Distill,
    now: Tick,
    after: RuntimeView,
    r: Result<ExecResult, ExecError>,
    p: Perception,
)
    requires
        executes(arith, engine, before, Statement::Distill(d), now, after, r),
        before.short_term.len() <= usize::MAX,
    ensures
        ({
            let seen = before.short_term.filter(
                |q: Perception|
                    {
                        &&& q.subject@ == d.subject@
                        &&& before.cfg.theta_fade.at_most(q.trace.life(arith, now))
                        &&& match d.filter {
                            Some(pred) => ast::holds(
                                arith,
                                pred,
                                (PerceptionFacts { p: &q, now, arith: &arith }),
                            ),
                            None => true,
                        }
                    },
            );
            let iv = synthesis::distilled(
                arith,
                d.subject@,
                perception::views_of(seen),
                before.cfg.distill,
            );
            &&& after.long_term == match iv {
                Some(v) => archetype::imprinted_into(
                    arith,
                    before.long_term,
                    v,
                    before.cfg.resilience,
                    now,
                ),
                None => before.long_term,
            }
            &&& after.short_term.contains(p) <==> before.short_term.contains(p)
                && before.cfg.theta_fade.at_most(p.trace.life(arith, now))
            &&& r matches Ok(ExecResult::Dreamed(report)) && {
                &&& report.distilled_subjects == (if iv is Some {
                    1int
                } else {
                    0int
                })
                &&& report.perceptions_absorbed == (if iv is Some {
                    seen.len() as int
                } else {
                    0int
                })
                &&& report.faded == before.short_term.len() - after.short_term.len()
            }
        }),
        after.facts == before.facts,
        after.cfg == before.cfg,
{
    let test = |q: Perception|
        {
            &&& q.subject@ == d.subject@
            &&& before.cfg.theta_fade.at_most(q.trace.life(arith, now))
            &&& match d.filter {
                Some(pred) => ast::holds(
                    arith,
                    pred,
                    (PerceptionFacts { p: &q, now, arith: &arith }),
                ),
                None => true,
            }
        };
    let kept = distil_kept(arith, d.filter, now);
    let alive = perception::alive_where(arith, d.subject@, now, before.cfg.theta_fade, kept);
    assert(test =~= alive);
    let seen = before.short_term.filter(alive);
    selection::filter_is_shorter(before.short_term, alive);
    let sights = runtime::seen_in(
        arith,
        before.short_term,
        seq![d.subject@],
        now,
        before.cfg,
        kept,
    );
    assert(sights =~= seq![seen]);
    runtime::dreams_go_subject_by_subject(
        arith,
        before.long_term,
        Seq::empty(),
        Seq::empty(),
        d.subject@,
        seen,
        now,
        before.cfg,
    );
    assert(Seq::<Seq<char>>::empty().push(d.subject@) =~= seq![d.subject@]);
    assert(Seq::<Seq<Perception>>::empty().push(seen) =~= seq![seen]);
    let iv = synthesis::distilled(
        arith,
        d.subject@,
        perception::views_of(seen),
        before.cfg.distill,
    );
    if iv is Some {
        synthesis::novelty_is_listed_in_its_order(
            arith,
            d.subject@,
            perception::views_of(seen),
            before.cfg.distill,
        );
    }
    let awake = perception::alive_at(arith, now, before.cfg.theta_fade);
    selection::filter_members(before.short_term, awake, p);
    selection::filter_is_shorter(before.short_term, awake);
}

/// What an `EVOKE` asks for: its subject within its budget; the span before now, but nothing before time
/// zero; the arc as the resolution says, or else as the projection does, or else all of it.
pub proof fn evocations_ask_as_stated<A: Arithmetic>(
    arith: A,
    e: Evoke,
    budget: usize,
    now: Tick,
)
    ensures
        ({
            let q = request_of(arith, e, budget, now);
            &&& q.subject == e.subject@
            &&& q.token_budget == budget
            &&& q.tokens_per_vector == 24
            &&& e.span is None ==> q.since is None
            &&& e.span is Some ==> q.since is Some && ({
                let from = arithmetic::difference64(arith, now, (e.span->0).seconds);
                q.since->0 == if from.is_nan() || from.below(Double::nought()) {
                    Double::nought()
                } else {
                    from
                }
            })
            &&& e.resolution == Some(Resolution::Point) ==> q.arc_detail == ArcDetail::Omitted
            &&& e.resolution == Some(Resolution::Summary) ==> q.arc_detail == ArcDetail::Summary
            &&& e.resolution == Some(Resolution::Arc) ==> q.arc_detail == ArcDetail::Full
            &&& e.resolution is None && e.projecting == Some(Projection::Snapshot) ==> q.arc_detail
                == ArcDetail::Omitted
            &&& e.resolution is None && e.projecting != Some(Projection::Snapshot) ==> q.arc_detail
                == ArcDetail::Full
        }),
{
}

/// `EVOKE`: without a budget it is refused for that; for a subject without a live archetype it is refused
/// for that; otherwise it answers with that archetype, within the budget, and where it names traits to
/// resonate with, in the focus of the mode that resonates most with them. It never changes anything.
pub proof fn evoking_answers_for_the_living<A: Arithmetic, P: Provider>(
    arith: A,
    engine: P,
    before: RuntimeView,
    e: Evoke,
    now: Tick,
    after: RuntimeView,
    r: Result<ExecResult, ExecError>,
    i: int,
)
    requires
        executes(arith, engine, before, Statement::Evoke(e), now, after, r),
    ensures
        after == before,
        e.token_budget is None <==> r == Err::<ExecResult, ExecError>(ExecError::MissingBudget),
        e.token_budget is Some && (forall|j: int|
            0 <= j < before.long_term.len() ==> (#[trigger] before.long_term[j]).subject
                != e.subject@) ==> (r matches Err(ExecError::NoSuchSubject(s)) && s@ == e.subject@),
        e.token_budget is Some && 0 <= i < before.long_term.len() && before.long_term[i].subject
            == e.subject@ && (forall|j: int|
            0 <= j < i ==> (#[trigger] before.long_term[j]).subject != e.subject@) ==> ({
            let a = before.long_term[i];
            if a.trace.life(arith, now).below(Double { bits: 0x3fa9_9999_9999_999a }) {
                r matches Err(ExecError::NoSuchSubject(s)) && s@ == e.subject@
            } else {
                r matches Ok(ExecResult::Evoked(c)) && {
                    &&& c@.subject == a.subject
                    &&& c@.core_label == a.core_label
                    &&& c@.represented == a.represented
                    &&& c@.token_estimate <= e.token_budget->0
                    &&& e.resonating_with@.len() == 0 ==> c@ == evoke::context_of(
                        arith,
                        a,
                        request_of(arith, e, e.token_budget->0, now),
                        now,
                    )
                    &&& e.resonating_with@.len() > 0 ==> exists|v: Seq<Single>| #[trigger]
                        provider::embeds(
                            engine,
                            text::joined(text::texts_of(e.resonating_with@), " "@),
                            v,
                        ) && c@.resonating_mode == a.resonant_label(arith, v)
                }
            }
        }),
{
    if e.token_budget is Some {
        let q = request_of(arith, e, e.token_budget->0, now);
        evoke::only_the_living_are_evoked(arith, before.long_term, q, now);
        archetype::subjects_have_their_first_archetype(before.long_term, e.subject@);
        if 0 <= i < before.long_term.len() && before.long_term[i].subject == e.subject@ && (forall|
            j: int,
        |
            0 <= j < i ==> (#[trigger] before.long_term[j]).subject != e.subject@) {
            let k = archetype::place_of(before.long_term, e.subject@)->0;
            if k < i {
                assert(before.long_term[k].subject != e.subject@);
            }
            if i < k {
                assert(before.long_term[i].subject != e.subject@);
            }
            let a = before.long_term[i];
            evoke::evocation_fits_the_budget(arith, a, q, now);
            assert(e.resonating_with@.len() == e.resonating_with.len());
        }
    }
}

/// `FADE`: with a predicate, exactly the perceptions that satisfy it are swept; without one, exactly those
/// that weigh less than the default threshold. What was contributed to the archetypes stays.
pub proof fn fading_sweeps_what_it_names<A: Arithmetic, P: Provider>(
    arith: A,
    engine: P,
    before: RuntimeView,
    f: Fade,
    now: Tick,
    after: RuntimeView,
    r: Result<ExecResult, ExecError>,
    p: Perception,
)
    requires
        executes(arith, engine, before, Statement::Fade(f), now, after, r),
        before.short_term.contains(p),
    ensures
        f.filter is Some ==> (after.short_term.contains(p) <==> !ast::holds(
            arith,
            f.filter->0,
            (PerceptionFacts { p: &p, now, arith: &arith }),
        )),
        f.filter is None ==> (after.short_term.contains(p) <==> (Double {
            bits: 0x3fa9_9999_9999_999a,
        }).at_most(p.trace.life(arith, now))),
        r matches Ok(ExecResult::Faded { swept }) && swept == before.short_term.len()
            - after.short_term.len(),
        after.long_term == before.long_term,
        after.facts == before.facts,
{
    selection::filter_members(before.short_term, fade_kept(arith, f.filter, now), p);
}

/// `IMPRINT`: the archetype of the subject is touched, and so is each of its modes; the firmer the
/// resilience, the more their decay rates are lowered. Nothing else changes, and where there is no
/// archetype the statement is refused and changes nothing.
pub proof fn imprinting_anchors_the_archetype<A: Arithmetic, P: Provider>(
    arith: A,
    engine: P,
    before: RuntimeView,
    i: Imprint,
    now: Tick,
    after: RuntimeView,
    r: Result<ExecResult, ExecError>,
    k: int,
)
    requires
        executes(arith, engine, before, Statement::Imprint(i), now, after, r),
        0 <= k < before.long_term.len(),
        forall|j: int|
            0 <= j < k ==> (#[trigger] before.long_term[j]).subject != i.archetype@,
    ensures
        before.long_term[k].subject == i.archetype@ ==> {
            let firmness = Double {
                bits: if i.resilience == Some(Resilience::High) {
                    0x3fc9_9999_9999_999a
                } else if i.resilience == Some(Resilience::Medium) {
                    0x3fb9_9999_9999_999a
                } else {
                    0x3fa9_9999_9999_999a
                },
            };
            &&& r matches Ok(ExecResult::Imprinted { archetype, note }) && archetype@ == i.archetype@
                && note@ == "essence consolidated: Δt→0 and λ reduced (permanence gained)"@
            &&& after.long_term.len() == before.long_term.len()
            &&& after.long_term[k] == before.long_term[k].anchored(arith, now, firmness)
            &&& forall|j: int|
                0 <= j < before.long_term.len() && j != k ==> #[trigger] after.long_term[j]
                    == before.long_term[j]
        },
        (forall|j: int|
            0 <= j < before.long_term.len() ==> (#[trigger] before.long_term[j]).subject
                != i.archetype@) ==> after == before && (r matches Err(ExecError::NoSuchSubject(s))
            && s@ == i.archetype@),
        after.short_term == before.short_term,
        after.facts == before.facts,
{
    archetype::subjects_have_their_first_archetype(before.long_term, i.archetype@);
    if before.long_term[k].subject == i.archetype@ {
        let place = archetype::place_of(before.long_term, i.archetype@)->0;
        if place < k {
            assert(before.long_term[place].subject != i.archetype@);
        }
        if k < place {
            assert(before.long_term[k].subject != i.archetype@);
        }
    }
}

/// The facts that a `RECALL` picks are about the subject, weigh the default threshold or more and satisfy
/// the predicate; none is picked twice, at most `k` are, the best first by relevance times weight. None
/// that is left out and could be picked scores higher, and where fewer than `k` are picked none is left
/// out.
pub proof fn recalled_places_score_best<A: Arithmetic>(
    arith: A,
    s: Seq<FactView>,
    subject: Seq<char>,
    filter: Option<Predicate>,
    query: Seq<Single>,
    k: nat,
    now: Tick,
)
    ensures
        ({
            let at = recall_places(arith, s, subject, filter, query, k, now);
            let fit = |n: int|
                {
                    &&& s[n].subject == subject
                    &&& (Double { bits: 0x3fa9_9999_9999_999a }).at_most(s[n].trace.life(arith, now))
                    &&& filter is Some ==> ast::holds(
                        arith,
                        filter->0,
                        fact_source(arith, s[n], query, now),
                    )
                };
            let worth = |n: int|
                arithmetic::product64(
                    arith,
                    arithmetic::widened(
                        arith,
                        arithmetic::similarity(arith, s[n].embedding, query).larger(
                            Single::nought(),
                        ),
                    ),
                    s[n].trace.life(arith, now),
                ).key();
            &&& at.len() <= k
            &&& at.no_duplicates()
            &&& forall|j: int| 0 <= j < at.len() ==> 0 <= #[trigger] at[j] < s.len() && fit(at[j])
            &&& forall|i: int, j: int|
                0 <= i < j < at.len() ==> worth(#[trigger] at[i]) >= worth(#[trigger] at[j])
            &&& forall|n: int, j: int|
                0 <= n < s.len() && #[trigger] fit(n) && !at.contains(n) && 0 <= j < at.len()
                    ==> worth(n) <= worth(#[trigger] at[j])
            &&& at.len() < k ==> forall|n: int|
                0 <= n < s.len() && #[trigger] fit(n) ==> at.contains(n)
        }),
{
    let fit = |n: int|
        {
            &&& s[n].subject == subject
            &&& (Double { bits: 0x3fa9_9999_9999_999a }).at_most(s[n].trace.life(arith, now))
            &&& filter is Some ==> ast::holds(
                arith,
                filter->0,
                fact_source(arith, s[n], query, now),
            )
        };
    let worth = |n: int|
        arithmetic::product64(
            arith,
            arithmetic::widened(
                arith,
                arithmetic::similarity(arith, s[n].embedding, query).larger(Single::nought()),
            ),
            s[n].trace.life(arith, now),
        ).key();
    let kept = recallable(arith, subject, filter, query, now);
    let places = selection::places(s, kept);
    let scores = factstore::scores_at(arith, s, places, query, now);
    let at = recall_places(arith, s, subject, filter, query, k, now);
    let best = ranking::best_first(scores);
    selection::places_are_exact(s, kept);
    ranking::best_first_exists(scores);
    ranking::top_places_are_places(places, scores, k);
    assert forall|n: int| 0 <= n < s.len() implies #[trigger] fit(n) == kept(s[n]) by {}
    assert forall|j: int| 0 <= j < at.len() implies worth(#[trigger] at[j]) == scores[best[j]].key()
        && 0 <= at[j] < s.len() && fit(at[j]) by {
        assert(ranking::below(scores.len() as int)(best[j]));
        assert(kept(s[at[j]]));
        assert(fit(at[j]) == kept(s[at[j]]));
    }
    assert forall|i: int, j: int| 0 <= i < j < at.len() implies worth(#[trigger] at[i]) >= worth(
        #[trigger] at[j],
    ) by {
        ranking::best_first_descends(scores, best, i, j);
    }
    assert forall|n: int| 0 <= n < s.len() && #[trigger] fit(n) && !at.contains(n) implies exists|
        q: int,
    |
        at.len() <= q < best.len() && places[#[trigger] best[q]] == n by {
        assert(kept(s[n]));
        let p = choose|p: int| 0 <= p < places.len() && places[p] == n;
        assert(ranking::below(scores.len() as int)(p));
        let q = choose|q: int| 0 <= q < best.len() && best[q] == p;
        if q < at.len() {
            assert(at[q] == n);
        }
        assert(places[best[q]] == n);
    }
    assert forall|n: int, j: int|
        0 <= n < s.len() && #[trigger] fit(n) && !at.contains(n) && 0 <= j < at.len() implies worth(n)
        <= worth(#[trigger] at[j]) by {
        let q = choose|q: int| at.len() <= q < best.len() && places[#[trigger] best[q]] == n;
        assert(ranking::below(scores.len() as int)(best[q]));
        ranking::best_first_descends(scores, best, j, q);
    }
    if at.len() < k {
        assert forall|n: int| 0 <= n < s.len() && #[trigger] fit(n) implies at.contains(n) by {
            if !at.contains(n) {
                let q = choose|q: int| at.len() <= q < best.len() && places[#[trigger] best[q]] == n;
                assert(at.len() == best.len());
            }
        }
    }
}

/// `RECALL`: each fact that it returns is a stored one, word for word, with its relevance, never negative,
/// times its weight for a score; they are at most as many as asked for. Nothing changes.
pub proof fn recalling_returns_stored_facts<A: Arithmetic, P: Provider>(
    arith: A,
    engine: P,
    before: RuntimeView,
    q: Recall,
    now: Tick,
    after: RuntimeView,
    r: Result<ExecResult, ExecError>,
)
    requires
        executes(arith, engine, before, Statement::Recall(q), now, after, r),
    ensures
        after == before,
        r matches Ok(ExecResult::Recalled(facts)) && exists|v: Seq<Single>|
            {
                let at = recall_places(
                    arith,
                    before.facts,
                    q.subject@,
                    q.filter,
                    v,
                    q.k as nat,
                    now,
                );
                &&& #[trigger] provider::embeds(
                    engine,
                    text::joined(text::texts_of(q.resonating_with@), " "@),
                    v,
                )
                &&& facts@.len() == at.len()
                &&& facts@.len() <= q.k
                &&& forall|j: int|
                    0 <= j < facts@.len() ==> {
                        let f = before.facts[at[j]];
                        &&& (#[trigger] facts@[j]).text@ == f.text
                        &&& facts@[j].provenance@ == f.provenance
                        &&& f.subject == q.subject@
                        &&& facts@[j].score == arithmetic::product64(
                            arith,
                            arithmetic::widened(
                                arith,
                                arithmetic::similarity(arith, f.embedding, v).larger(
                                    Single::nought(),
                                ),
                            ),
                            f.trace.life(arith, now),
                        )
                    }
            },
{
    match r {
        Ok(ExecResult::Recalled(facts)) => {
            let v = choose|v: Seq<Single>|
                {
                    &&& #[trigger] provider::embeds(
                        engine,
                        text::joined(text::texts_of(q.resonating_with@), " "@),
                        v,
                    )
                    &&& factstore::recalls_of(facts@) == factstore::recalled_at(
                        arith,
                        before.facts,
                        recall_places(
                            arith,
                            before.facts,
                            q.subject@,
                            q.filter,
                            v,
                            q.k as nat,
                            now,
                        ),
                        v,
                        now,
                    )
                };
            let at = recall_places(
                arith,
                before.facts,
                q.subject@,
                q.filter,
                v,
                q.k as nat,
                now,
            );
            recalled_places_score_best(
                arith,
                before.facts,
                q.subject@,
                q.filter,
                v,
                q.k as nat,
                now,
            );
            let given = factstore::recalled_at(arith, before.facts, at, v, now);
            assert(factstore::recalls_of(facts@).len() == given.len());
            assert forall|j: int| 0 <= j < facts@.len() implies {
                let f = before.facts[at[j]];
                &&& (#[trigger] facts@[j]).text@ == f.text
                &&& facts@[j].provenance@ == f.provenance
                &&& f.subject == q.subject@
                &&& facts@[j].score == arithmetic::product64(
                    arith,
                    arithmetic::widened(
                        arith,
                        arithmetic::similarity(arith, f.embedding, v).larger(Single::nought()),
                    ),
                    f.trace.life(arith, now),
                )
            } by {
                assert(factstore::recalls_of(facts@)[j] == given[j]);
                assert(0 <= at[j] < before.facts.len());
            }
        },
        _ => {},
    }
}

/// `REINFORCE`: the facts that score best against the query, at most as many as asked for, are touched,
/// and it says how many; every other fact stays as it is, and so does everything else.
pub proof fn reinforcing_touches_the_best<A: Arithmetic, P: Provider>(
    arith: A,
    engine: P,
    before: RuntimeView,
    q: Reinforce,
    now: Tick,
    after: RuntimeView,
    r: Result<ExecResult, ExecError>,
)
    requires
        executes(arith, engine, before, Statement::Reinforce(q), now, after, r),
    ensures
        after.short_term == before.short_term,
        after.long_term == before.long_term,
        after.cfg == before.cfg,
        after.facts.len() == before.facts.len(),
        exists|v: Seq<Single>|
            {
                let at = factstore::hits(
                    arith,
                    before.facts,
                    q.subject@,
                    v,
                    q.k as nat,
                    now,
                    before.cfg.theta_fade,
                );
                &&& #[trigger] provider::embeds(
                    engine,
                    text::joined(text::texts_of(q.resonating_with@), " "@),
                    v,
                )
                &&& r matches Ok(ExecResult::Reinforced { count }) && count == at.len() && count
                    <= q.k
                &&& forall|i: int|
                    0 <= i < before.facts.len() ==> {
                        &&& !at.contains(i) ==> #[trigger] after.facts[i] == before.facts[i]
                        &&& at.contains(i) ==> after.facts[i].text == before.facts[i].text
                            && after.facts[i].trace.last_touch == now && after.facts[i].trace
                            == before.facts[i].trace.touched(
                            arith,
                            now,
                            Double { bits: 0x3fb9_9999_9999_999a },
                        )
                    }
            },
{
    let v = choose|v: Seq<Single>|
        {
            let at = factstore::hits(
                arith,
                before.facts,
                q.subject@,
                v,
                q.k as nat,
                now,
                before.cfg.theta_fade,
            );
            &&& #[trigger] provider::embeds(
                engine,
                text::joined(text::texts_of(q.resonating_with@), " "@),
                v,
            )
            &&& after == (RuntimeView {
                facts: factstore::revisited_at(arith, before.facts, at, now),
                ..before
            })
            &&& match r {
                Ok(ExecResult::Reinforced { count }) => count == at.len(),
                _ => false,
            }
        };
    factstore::hits_are_about_the_subject(
        arith,
        before.facts,
        q.subject@,
        v,
        q.k as nat,
        now,
        before.cfg.theta_fade,
    );
}

/// A program does what its statements do, one after the other, each on what the ones before it left, and
/// answers each of them in their order; without statements it does nothing.
pub proof fn programs_run_statement_by_statement<A: Arithmetic, P: Provider>(
    arith: A,
    engine: P,
    before: RuntimeView,
    stmts: Seq<Statement>,
    s: Statement,
    now: Tick,
    after: RuntimeView,
    r: Seq<Result<ExecResult, ExecError>>,
    x: Result<ExecResult, ExecError>,
)
    requires
        runs(arith, engine, before, stmts.push(s), now, after, r.push(x)),
    ensures
        exists|between: RuntimeView| #[trigger]
            runs(arith, engine, before, stmts, now, between, r) && executes(
                arith,
                engine,
                between,
                s,
                now,
                after,
                x,
            ),
{
    let states = choose|states: Seq<RuntimeView>| #[trigger]
        runs_through(arith, engine, before, stmts.push(s), now, after, r.push(x), states);
    let n = stmts.len() as int;
    let between = states[n];
    let part = states.drop_last();
    assert(stmts.push(s)[n] == s);
    assert forall|i: int| 0 <= i < stmts.len() implies executes(
        arith,
        engine,
        part[i],
        #[trigger] stmts[i],
        now,
        part[i + 1],
        r[i],
    ) by {
        assert(stmts.push(s)[i] == stmts[i]);
        assert(r.push(x)[i] == r[i]);
    }
    assert(runs_through(arith, engine, before, stmts, now, between, r, part));
    assert(runs(arith, engine, before, stmts, now, between, r));
}

/// A program without statements does nothing and answers nothing.
pub proof fn empty_programs_do_nothing<A: Arithmetic, P: Provider>(
    arith: A,
    engine: P,
    before: RuntimeView,
    now: Tick,
    after: RuntimeView,
    r: Seq<Result<ExecResult, ExecError>>,
)
    requires
        runs(arith, engine, before, Seq::empty(), now, after, r),
    ensures
        after == before,
        r.len() == 0,
{
    let states = choose|states: Seq<RuntimeView>| #[trigger]
        runs_through(arith, engine, before, Seq::empty(), now, after, r, states);
}

/// What errors say: that a subject has no live archetype, with its name, or that a budget is missing.
pub proof fn errors_say_what_is_missing(subject: String)
    ensures
        ExecError::NoSuchSubject(subject).says() == "no live archetype for '"@ + subject@ + "'"@,
        ExecError::MissingBudget.says() == "EVOKE requires WITHIN budget N tokens"@,
{
}

} // verus!
