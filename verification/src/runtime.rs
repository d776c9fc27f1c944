//! The cognitive runtime: perceives, dreams, evokes and fades.
//!
//! Perception (short term) becomes synthesis (the dream) becomes archetype (long term), and `FADE`
//! sweeps what was absorbed. Breathing is driven by logical ticks: it is the only point at which
//! weights are evaluated in bulk.

use crate::archetype;
use crate::archetype::Archetype;
use crate::archetype::ArchetypeStore;
use crate::archetype::ArchetypeView;
use crate::archetype::Resilience;
use crate::arithmetic;
use crate::arithmetic::Arithmetic;
use crate::capacity;
use crate::entropy::Tick;
use crate::entropy::DEFAULT_THETA_FADE;
use crate::entropy::ONE;
use crate::evoke;
use crate::evoke::CompressedContext;
use crate::evoke::EvokeRequest;
use crate::evoke::UnifiedContext;
use crate::factstore;
use crate::factstore::FactStore;
use crate::factstore::FactView;
use crate::factstore::RecalledFact;
use crate::factstore::Remember;
use crate::modes;
use crate::number::Double;
use crate::number::Single;
use crate::number::Vector;
use crate::perception;
use crate::perception::Perception;
use crate::perception::PerceptionBuffer;
use crate::reflection;
use crate::reflection::Insight;
use crate::reflection::InsightView;
use crate::reflection::DEFAULT_INSIGHT_SALIENCE;
use crate::selection;
use crate::synthesis;
use crate::synthesis::DistillConfig;
use crate::text;
use vstd::prelude::*;

verus! {

/// Pattern of the half-life of an insight that is stored as a fact: 90 days, in seconds.
pub const INSIGHT_HALFLIFE_SECS: u64 = 0x415d_a9c0_0000_0000;

/// Configuration of a runtime.
#[derive(Clone, Copy, Debug, PartialEq, Eq, Structural)]
pub struct RuntimeConfig {
    pub theta_fade: Double,
    pub distill: DistillConfig,
    pub resilience: Resilience,
}

impl Default for RuntimeConfig {
    fn default() -> (r: RuntimeConfig)
        ensures
            r.theta_fade == (Double { bits: DEFAULT_THETA_FADE }),
            r.distill.theta_redundancy == (Single { bits: synthesis::DEFAULT_THETA_REDUNDANCY }),
            r.distill.theta_anomaly == (Single { bits: synthesis::DEFAULT_THETA_ANOMALY }),
            r.distill.modes.theta == (Single { bits: modes::DEFAULT_MODE_THETA }),
            r.distill.modes.max_modes == modes::DEFAULT_MAX_MODES,
            r.resilience == Resilience::High,
    {
        RuntimeConfig {
            theta_fade: Double { bits: DEFAULT_THETA_FADE },
            distill: DistillConfig::default(),
            resilience: Resilience::High,
        }
    }
}

/// Report of one breath.
#[derive(Clone, Copy, Debug, PartialEq, Eq, Structural)]
pub struct BreathReport {
    pub distilled_subjects: usize,
    pub perceptions_absorbed: usize,
    pub faded: usize,
}

impl Default for BreathReport {
    fn default() -> (r: BreathReport)
        ensures
            r == (BreathReport { distilled_subjects: 0, perceptions_absorbed: 0, faded: 0 }),
    {
        BreathReport { distilled_subjects: 0, perceptions_absorbed: 0, faded: 0 }
    }
}

/// How far a dream has come: the long-term memory, and what was distilled into it.
#[verifier::ext_equal]
pub struct Dream {
    pub long_term: Seq<ArchetypeView>,
    pub distilled: nat,
    pub absorbed: nat,
}

/// Everything passes.
pub open spec fn everything() -> spec_fn(Perception) -> bool {
    |p: Perception| true
}

/// What a dream distils for one subject out of what it sees of it.
pub open spec fn essence_of<A: Arithmetic>(
    arith: A,
    subject: Seq<char>,
    seen: Seq<Perception>,
    cfg: RuntimeConfig,
) -> Option<synthesis::IntentionView> {
    synthesis::distilled(arith, subject, perception::views_of(seen), cfg.distill)
}

/// A dream after subjects, in their order: what each distils out of what is seen of it is imprinted.
pub open spec fn dreamt_of<A: Arithmetic>(
    arith: A,
    long_term: Seq<ArchetypeView>,
    subjects: Seq<Seq<char>>,
    seen: Seq<Seq<Perception>>,
    now: Tick,
    cfg: RuntimeConfig,
) -> Dream
    decreases subjects.len(),
{
    if subjects.len() == 0 {
        Dream { long_term, distilled: 0, absorbed: 0 }
    } else {
        let d = dreamt_of(arith, long_term, subjects.drop_last(), seen, now, cfg);
        match essence_of(arith, subjects.last(), seen[subjects.len() - 1], cfg) {
            Some(iv) => Dream {
                long_term: archetype::imprinted_into(
                    arith,
                    d.long_term,
                    iv,
                    cfg.resilience,
                    now,
                ),
                distilled: d.distilled + 1,
                absorbed: d.absorbed + iv.absorbed as nat,
            },
            None => d,
        }
    }
}

/// What is seen of each subject: its live perceptions that pass a test.
pub open spec fn seen_in<A: Arithmetic>(
    arith: A,
    short_term: Seq<Perception>,
    subjects: Seq<Seq<char>>,
    now: Tick,
    cfg: RuntimeConfig,
    kept: spec_fn(Perception) -> bool,
) -> Seq<Seq<Perception>> {
    Seq::new(
        subjects.len(),
        |i: int|
            short_term.filter(
                perception::alive_where(arith, subjects[i], now, cfg.theta_fade, kept),
            ),
    )
}

/// A dream after subjects over their live perceptions that pass a test.
pub open spec fn dreamt<A: Arithmetic>(
    arith: A,
    long_term: Seq<ArchetypeView>,
    short_term: Seq<Perception>,
    subjects: Seq<Seq<char>>,
    now: Tick,
    cfg: RuntimeConfig,
    kept: spec_fn(Perception) -> bool,
) -> Dream {
    dreamt_of(
        arith,
        long_term,
        subjects,
        seen_in(arith, short_term, subjects, now, cfg, kept),
        now,
        cfg,
    )
}

/// `seen` is what is seen of each subject: its live perceptions that were answered with yes, by
/// answers that `says` allows.
pub open spec fn sights<A: Arithmetic>(
    arith: A,
    short_term: Seq<Perception>,
    subjects: Seq<Seq<char>>,
    now: Tick,
    cfg: RuntimeConfig,
    says: spec_fn(Perception, bool) -> bool,
    seen: Seq<Seq<Perception>>,
) -> bool {
    seen.len() == subjects.len() && forall|i: int|
        0 <= i < subjects.len() ==> selection::sifted(
            short_term,
            selection::among(
                perception::alive_of(arith, subjects[i], now, cfg.theta_fade),
                says,
            ),
            #[trigger] seen[i],
        )
}

/// What a sleep over what was seen of subjects leaves, and what it reports.
pub open spec fn slept<A: Arithmetic>(
    arith: A,
    before: RuntimeView,
    subjects: Seq<Seq<char>>,
    seen: Seq<Seq<Perception>>,
    now: Tick,
    after: RuntimeView,
    r: BreathReport,
) -> bool {
    let d = dreamt_of(arith, before.long_term, subjects, seen, now, before.cfg);
    let awake = before.short_term.filter(
        perception::alive_at(arith, now, before.cfg.theta_fade),
    );
    &&& after == (RuntimeView { short_term: awake, long_term: d.long_term, ..before })
    &&& r == (BreathReport {
        distilled_subjects: d.distilled as usize,
        perceptions_absorbed: d.absorbed as usize,
        faded: (before.short_term.len() - awake.len()) as usize,
    })
}

/// What a test that answers as a predicate does lets a dream see: the live perceptions that the
/// predicate keeps.
pub proof fn sights_by_a_predicate<A: Arithmetic>(
    arith: A,
    short_term: Seq<Perception>,
    subjects: Seq<Seq<char>>,
    now: Tick,
    cfg: RuntimeConfig,
    says: spec_fn(Perception, bool) -> bool,
    kept: spec_fn(Perception) -> bool,
    seen: Seq<Seq<Perception>>,
)
    requires
        sights(arith, short_term, subjects, now, cfg, says, seen),
        forall|p: Perception, b: bool| #[trigger] says(p, b) ==> b == kept(p),
    ensures
        seen == seen_in(arith, short_term, subjects, now, cfg, kept),
{
    assert forall|i: int| 0 <= i < seen.len() implies #[trigger] seen[i] == seen_in(
        arith,
        short_term,
        subjects,
        now,
        cfg,
        kept,
    )[i] by {
        selection::sifting_by_a_predicate(
            short_term,
            selection::among(
                perception::alive_of(arith, subjects[i], now, cfg.theta_fade),
                says,
            ),
            perception::alive_where(arith, subjects[i], now, cfg.theta_fade, kept),
            seen[i],
        );
    }
    assert(seen =~= seen_in(arith, short_term, subjects, now, cfg, kept));
}

/// What a dream sees of subjects depends on them alone.
proof fn dreams_by_prefix<A: Arithmetic>(
    arith: A,
    long_term: Seq<ArchetypeView>,
    subjects: Seq<Seq<char>>,
    a: Seq<Seq<Perception>>,
    b: Seq<Seq<Perception>>,
    now: Tick,
    cfg: RuntimeConfig,
)
    requires
        forall|i: int| 0 <= i < subjects.len() ==> a[i] == b[i],
    ensures
        dreamt_of(arith, long_term, subjects, a, now, cfg) == dreamt_of(
            arith,
            long_term,
            subjects,
            b,
            now,
            cfg,
        ),
    decreases subjects.len(),
{
    if subjects.len() > 0 {
        dreams_by_prefix(arith, long_term, subjects.drop_last(), a, b, now, cfg);
    }
}

/// A dream adds no more to any count than the perceptions it sees: where at most `n` are seen of each
/// subject, a memory that was ready for the subjects within `b` stays ready within `b` and `n` for
/// each of them. The milestones of every subject whose counts added up still do.
pub proof fn dreaming_fits<A: Arithmetic>(
    arith: A,
    long_term: Seq<ArchetypeView>,
    subjects: Seq<Seq<char>>,
    seen: Seq<Seq<Perception>>,
    now: Tick,
    cfg: RuntimeConfig,
    n: nat,
    b: nat,
)
    requires
        arithmetic::lawful(arith),
        forall|i: int| 0 <= i < subjects.len() ==> (#[trigger] seen[i]).len() <= n,
        subjects.len() * n > 0 ==> cfg.distill.modes.max_modes > 0,
        subjects.len() * n > 0 ==> forall|i: int|
            0 <= i < subjects.len() ==> capacity::about_ready(long_term, #[trigger] subjects[i], b),
        b + subjects.len() * n <= usize::MAX,
    ensures
        ({
            let d = dreamt_of(arith, long_term, subjects, seen, now, cfg);
            &&& forall|m: Seq<char>|
                capacity::about_ready(long_term, m, b) ==> #[trigger] capacity::about_ready(
                    d.long_term,
                    m,
                    b + subjects.len() * n,
                )
            &&& forall|m: Seq<char>|
                capacity::about_countable(long_term, m) ==> #[trigger] capacity::about_countable(
                    d.long_term,
                    m,
                )
            &&& d.distilled <= subjects.len()
            &&& d.absorbed <= subjects.len() * n
        }),
    decreases subjects.len(),
{
    if subjects.len() == 0 {
        assert(0 * n == 0);
    } else {
        let init = subjects.drop_last();
        let k = init.len();
        let last = subjects.last();
        assert((k + 1) * n == k * n + n) by (nonlinear_arith);
        assert(k * n >= 0) by (nonlinear_arith);
        assert forall|i: int|
            0 <= i < init.len() && subjects.len() * n > 0 implies capacity::about_ready(
            long_term,
            #[trigger] init[i],
            b,
        ) by {
            assert(subjects[i] == init[i]);
        }
        dreaming_fits(arith, long_term, init, seen, now, cfg, n, b);
        let d = dreamt_of(arith, long_term, init, seen, now, cfg);
        let e = dreamt_of(arith, long_term, subjects, seen, now, cfg);
        let sight = seen[k as int];
        let bound = b + k * n;
        match essence_of(arith, last, sight, cfg) {
            Some(iv) => {
                assert(perception::views_of(sight).len() > 0);
                assert(subjects.len() * n > 0) by {
                    assert(sight.len() <= n);
                }
                capacity::distilling_is_sound(
                    arith,
                    last,
                    perception::views_of(sight),
                    cfg.distill,
                );
                assert(capacity::about_ready(long_term, subjects[k as int], b));
                assert(capacity::about_ready(d.long_term, last, bound));
                capacity::imprinting_fits(arith, d.long_term, iv, cfg.resilience, now, bound);
                assert forall|m: Seq<char>|
                    capacity::about_ready(long_term, m, b) implies #[trigger] capacity::about_ready(
                    e.long_term,
                    m,
                    b + subjects.len() * n,
                ) by {
                    assert(capacity::about_ready(d.long_term, m, bound));
                    assert(capacity::about_ready(e.long_term, m, bound + iv.absorbed as nat));
                    capacity::ready_within_more(
                        e.long_term,
                        m,
                        bound + iv.absorbed as nat,
                        b + subjects.len() * n,
                    );
                }
                assert forall|m: Seq<char>|
                    capacity::about_countable(
                        long_term,
                        m,
                    ) implies #[trigger] capacity::about_countable(e.long_term, m) by {
                    assert(capacity::about_countable(d.long_term, m));
                }
            },
            None => {
                assert forall|m: Seq<char>|
                    capacity::about_ready(long_term, m, b) implies #[trigger] capacity::about_ready(
                    e.long_term,
                    m,
                    b + subjects.len() * n,
                ) by {
                    assert(capacity::about_ready(d.long_term, m, bound));
                    capacity::ready_within_more(
                        d.long_term,
                        m,
                        bound,
                        b + subjects.len() * n,
                    );
                }
            },
        }
    }
}

/// The materials of insights, in their order; an insight without a direction gives none.
pub open spec fn materials(
    a: ArchetypeView,
    insights: Seq<InsightView>,
) -> Seq<(Seq<char>, Seq<Single>)>
    decreases insights.len(),
{
    if insights.len() == 0 {
        Seq::empty()
    } else {
        match reflection::material(a, insights.last()) {
            Some(m) => materials(a, insights.drop_last()).push(m),
            None => materials(a, insights.drop_last()),
        }
    }
}

/// The facts after materials were remembered, in their order.
pub open spec fn remembered_all<A: Arithmetic>(
    arith: A,
    s: Seq<FactView>,
    theta: Single,
    subject: Seq<char>,
    ms: Seq<(Seq<char>, Seq<Single>)>,
    now: Tick,
) -> Seq<FactView>
    decreases ms.len(),
{
    if ms.len() == 0 {
        s
    } else {
        factstore::remembered(
            arith,
            remembered_all(arith, s, theta, subject, ms.drop_last(), now),
            theta,
            factstore::learned(
                arith,
                subject,
                ms.last().0,
                ms.last().1,
                "reflection"@,
                Double { bits: DEFAULT_INSIGHT_SALIENCE },
                Double { bits: INSIGHT_HALFLIFE_SECS },
                now,
            ),
        )
    }
}

/// The cognitive runtime. It holds both layers under the same physics: the semantic one, archetypes
/// and modes, and the episodic one, verbatim facts.
pub struct CognitiveRuntime<A: Arithmetic> {
    short_term: PerceptionBuffer,
    long_term: ArchetypeStore,
    facts: FactStore,
    cfg: RuntimeConfig,
    arith: A,
}

/// What a runtime holds.
#[verifier::ext_equal]
pub struct RuntimeView {
    pub short_term: Seq<Perception>,
    pub long_term: Seq<ArchetypeView>,
    pub facts: Seq<FactView>,
    pub sameness: Single,
    pub cfg: RuntimeConfig,
}

impl<A: Arithmetic> View for CognitiveRuntime<A> {
    type V = RuntimeView;

    closed spec fn view(&self) -> RuntimeView {
        RuntimeView {
            short_term: self.short_term@,
            long_term: self.long_term@,
            facts: self.facts@,
            sameness: self.facts.sameness(),
            cfg: self.cfg,
        }
    }
}

impl RuntimeView {
    /// If a subject has an archetype, the counts of each milestone of it add up to a machine word.
    pub open spec fn countable_about(self, subject: Seq<char>) -> bool {
        capacity::about_countable(self.long_term, subject)
    }

    /// The memory can dream of subjects over so many perceptions: the counts of their archetypes have
    /// room, and, where there is anything to dream of, at least one mode per cycle is allowed and their
    /// archetypes decay.
    pub open spec fn can_dream_over(self, subjects: Seq<Seq<char>>, perceptions: nat) -> bool {
        let load = subjects.len() * perceptions;
        &&& load <= usize::MAX
        &&& load > 0 ==> self.cfg.distill.modes.max_modes > 0
        &&& load > 0 ==> forall|i: int|
            0 <= i < subjects.len() ==> capacity::about_ready(
                self.long_term,
                #[trigger] subjects[i],
                (usize::MAX - load) as nat,
            )
    }

    /// The memory can dream of subjects.
    pub open spec fn can_dream(self, subjects: Seq<Seq<char>>) -> bool {
        self.can_dream_over(subjects, self.short_term.len())
    }
}

impl<A: Arithmetic> CognitiveRuntime<A> {
    /// The arithmetic that the runtime computes with.
    pub closed spec fn arithmetic(&self) -> A {
        self.arith
    }

    /// The runtime computes lawfully.
    pub open spec fn lawful(&self) -> bool {
        arithmetic::lawful(self.arithmetic())
    }

    /// A runtime without memories.
    pub fn new(cfg: RuntimeConfig, arith: A) -> (r: CognitiveRuntime<A>)
        ensures
            r@ == (RuntimeView {
                short_term: Seq::empty(),
                long_term: Seq::empty(),
                facts: Seq::empty(),
                sameness: Single { bits: factstore::DEFAULT_FACT_DEDUP },
                cfg,
            }),
            r.arithmetic() == arith,
    {
        CognitiveRuntime {
            short_term: PerceptionBuffer::new(),
            long_term: ArchetypeStore::new(),
            facts: FactStore::new(),
            cfg,
            arith,
        }
    }

    /// The arithmetic that the runtime computes with.
    pub fn arith(&self) -> (r: &A)
        ensures
            *r == self.arithmetic(),
    {
        &self.arith
    }

    /// `PERCEIVE`: assimilates a stimulus into short-term memory.
    pub fn perceive(&mut self, p: Perception)
        ensures
            final(self)@ == (RuntimeView { short_term: old(self)@.short_term.push(p), ..old(self)@ }),
            final(self).arithmetic() == old(self).arithmetic(),
    {
        self.short_term.perceive(p);
    }

    /// Whether the runtime can dream of subjects.
    pub fn ready(&self, subjects: &[&str]) -> (r: bool)
        ensures
            r == self@.can_dream(text::names_of(subjects@)),
    {
        self.ready_over(subjects, self.short_term.len() as u128)
    }

    /// Whether the runtime can dream of subjects over so many perceptions.
    pub(crate) fn ready_over(&self, subjects: &[&str], perceptions: u128) -> (r: bool)
        requires
            perceptions <= usize::MAX + 1,
        ensures
            r == self@.can_dream_over(text::names_of(subjects@), perceptions as nat),
    {
        let ghost names = text::names_of(subjects@);
        let n: usize = subjects.len();
        assert(0 <= n * perceptions <= 0xffff_ffff_ffff_ffff * 0x1_0000_0000_0000_0000)
            by (nonlinear_arith)
            requires
                0 <= n <= 0xffff_ffff_ffff_ffff,
                0 <= perceptions <= 0x1_0000_0000_0000_0000,
        ;
        let load: u128 = (n as u128) * perceptions;
        if load > usize::MAX as u128 {
            return false;
        }
        if load == 0 {
            return true;
        }
        if self.cfg.distill.modes.max_modes == 0 {
            return false;
        }
        let bound: usize = usize::MAX - load as usize;
        let mut i: usize = 0;
        while i < subjects.len()
            invariant
                i <= subjects.len(),
                names == text::names_of(subjects@),
                0 < load <= usize::MAX,
                load == names.len() * perceptions,
                bound == usize::MAX - load,
                self.cfg.distill.modes.max_modes > 0,
                forall|k: int|
                    0 <= k < i ==> capacity::about_ready(
                        self.long_term@,
                        #[trigger] names[k],
                        bound as nat,
                    ),
            decreases subjects.len() - i,
        {
            assert(names[i as int] == subjects@[i as int]@);
            if !capacity::is_ready(&self.long_term, subjects[i], bound) {
                assert(!capacity::about_ready(self@.long_term, names[i as int], bound as nat));
                return false;
            }
            i += 1;
        }
        true
    }

    /// Dreams for subjects over the perceptions that a test answers with yes, as `says` allows.
    pub(crate) fn dream<F: Fn(&A, &Perception) -> bool>(
        &mut self,
        subjects: &[&str],
        now: Tick,
        keep: &F,
        Ghost(says): Ghost<spec_fn(Perception, bool) -> bool>,
    ) -> (r: BreathReport)
        requires
            old(self).lawful(),
            old(self)@.can_dream(text::names_of(subjects@)),
            forall|k: int, i: int|
                0 <= k < subjects@.len() && 0 <= i < old(self)@.short_term.len()
                    && perception::alive_of(
                    old(self).arithmetic(),
                    (#[trigger] subjects@[k])@,
                    now,
                    old(self)@.cfg.theta_fade,
                )(#[trigger] old(self)@.short_term[i]) ==> call_requires(
                    *keep,
                    (&old(self).arithmetic(), &old(self)@.short_term[i]),
                ),
            forall|p: &Perception, b: bool| #[trigger]
                call_ensures(*keep, (&old(self).arithmetic(), p), b) ==> says(*p, b),
        ensures
            final(self).arithmetic() == old(self).arithmetic(),
            forall|n: Seq<char>|
                old(self)@.countable_about(n) ==> #[trigger] final(self)@.countable_about(n),
            archetype::decaying(old(self)@.long_term) ==> archetype::decaying(
                final(self)@.long_term,
            ),
            exists|seen: Seq<Seq<Perception>>| #[trigger]
                sights(
                    old(self).arithmetic(),
                    old(self)@.short_term,
                    text::names_of(subjects@),
                    now,
                    old(self)@.cfg,
                    says,
                    seen,
                ) && slept(
                    old(self).arithmetic(),
                    old(self)@,
                    text::names_of(subjects@),
                    seen,
                    now,
                    final(self)@,
                    r,
                ),
    {
        let ghost before = self@;
        let ghost arith = self.arith;
        let ghost names = text::names_of(subjects@);
        let ghost n = before.short_term.len();
        let ghost load = subjects@.len() * n;
        let ghost spare = (usize::MAX - load) as nat;
        let ghost mut seen: Seq<Seq<Perception>> = Seq::empty();
        let mut report = BreathReport::default();
        let mut i: usize = 0;
        proof {
            assert(names.take(0) =~= Seq::empty());
            assert(0 * n == 0);
        }
        while i < subjects.len()
            invariant
                i <= subjects.len(),
                self.arith == arith,
                arithmetic::lawful(arith),
                self.cfg == before.cfg,
                self.short_term@ == before.short_term,
                self.facts@ == before.facts,
                self.facts.sameness() == before.sameness,
                names == text::names_of(subjects@),
                n == before.short_term.len(),
                load == subjects@.len() * n,
                load <= usize::MAX,
                spare == usize::MAX - load,
                i * n <= load,
                load > 0 ==> before.cfg.distill.modes.max_modes > 0,
                load > 0 ==> forall|k: int|
                    0 <= k < names.len() ==> capacity::about_ready(
                        before.long_term,
                        #[trigger] names[k],
                        spare,
                    ),
                archetype::decaying(before.long_term) ==> archetype::decaying(self.long_term@),
                forall|k: int, j: int|
                    0 <= k < subjects@.len() && 0 <= j < before.short_term.len()
                        && perception::alive_of(
                        arith,
                        (#[trigger] subjects@[k])@,
                        now,
                        before.cfg.theta_fade,
                    )(#[trigger] before.short_term[j]) ==> call_requires(
                        *keep,
                        (&arith, &before.short_term[j]),
                    ),
                forall|p: &Perception, b: bool| #[trigger]
                    call_ensures(*keep, (&arith, p), b) ==> says(*p, b),
                seen.len() == i,
                forall|k: int| 0 <= k < i ==> (#[trigger] seen[k]).len() <= n,
                forall|k: int|
                    0 <= k < i ==> selection::sifted(
                        before.short_term,
                        selection::among(
                            perception::alive_of(arith, names[k], now, before.cfg.theta_fade),
                            says,
                        ),
                        #[trigger] seen[k],
                    ),
                report.faded == 0,
                ({
                    let d = dreamt_of(
                        arith,
                        before.long_term,
                        names.take(i as int),
                        seen,
                        now,
                        before.cfg,
                    );
                    &&& self.long_term@ == d.long_term
                    &&& report.distilled_subjects == d.distilled
                    &&& report.perceptions_absorbed == d.absorbed
                }),
            decreases subjects.len() - i,
        {
            let subject: &str = subjects[i];
            let engine: &A = &self.arith;
            let ghost askable = |p: Perception| call_requires(*keep, (engine, &p));
            let test = |p: &Perception| -> (b: bool)
                requires
                    askable(*p),
                ensures
                    says(*p, b),
                { keep(engine, p) };
            let alive = self.short_term.alive_for_told(
                &self.arith,
                subject,
                now,
                self.cfg.theta_fade,
                &test,
                Ghost(says),
            );
            let ghost sight = selection::targets(alive@);
            let ghost had = seen;
            proof {
                let answers = choose|answers: Seq<bool>| #[trigger]
                    selection::answered(
                        before.short_term,
                        selection::among(
                            perception::alive_of(arith, subject@, now, before.cfg.theta_fade),
                            says,
                        ),
                        answers,
                    ) && sight == selection::picked(before.short_term, answers);
                selection::picked_is_shorter(before.short_term, answers);
                seen = seen.push(sight);
                assert(names.take(i + 1).drop_last() =~= names.take(i as int));
                assert(names.take(i + 1).last() == subject@);
                assert(names[i as int] == subject@);
                dreams_by_prefix(
                    arith,
                    before.long_term,
                    names.take(i as int),
                    had,
                    seen,
                    now,
                    before.cfg,
                );
                assert(subjects@.len() >= 1 && n >= 1 ==> subjects@.len() * n >= 1)
                    by (nonlinear_arith);
                assert((i + 1) * n == i * n + n) by (nonlinear_arith);
                assert((i + 1) * n <= load) by (nonlinear_arith)
                    requires
                        i + 1 <= subjects@.len(),
                        load == subjects@.len() * n,
                ;
                let firsts = names.take(i as int);
                assert forall|k: int| 0 <= k < firsts.len() && load > 0 implies
                    capacity::about_ready(before.long_term, #[trigger] firsts[k], spare) by {
                    assert(names[k] == firsts[k]);
                }
                assert(i * n > 0 ==> load > 0);
                dreaming_fits(arith, before.long_term, firsts, had, now, before.cfg, n, spare);
                dreams_by_prefix(arith, before.long_term, firsts, seen, had, now, before.cfg);
            }
            match synthesis::distill(&self.arith, subject, &alive, self.cfg.distill) {
                Some(iv) => {
                    proof {
                        assert(sight.len() > 0);
                        assert(load > 0);
                        capacity::distilling_is_sound(
                            arith,
                            subject@,
                            perception::views_of(sight),
                            before.cfg.distill,
                        );
                        assert(capacity::about_ready(before.long_term, names[i as int], spare));
                        assert(capacity::about_ready(
                            self.long_term@,
                            subject@,
                            (spare + i * n) as nat,
                        ));
                        capacity::imprinting_fits(
                            arith,
                            self.long_term@,
                            iv@,
                            before.cfg.resilience,
                            now,
                            (spare + i * n) as nat,
                        );
                    }
                    report.perceptions_absorbed = report.perceptions_absorbed + iv.absorbed;
                    self.long_term.imprint(&self.arith, &iv, self.cfg.resilience, now);
                    report.distilled_subjects = report.distilled_subjects + 1;
                },
                None => {},
            }
            i += 1;
        }
        proof {
            assert(names.take(i as int) =~= names);
            dreaming_fits(arith, before.long_term, names, seen, now, before.cfg, n, spare);
            assert(sights(
                arith,
                before.short_term,
                names,
                now,
                before.cfg,
                says,
                seen,
            ));
        }
        let faded = self.short_term.fade_swept(&self.arith, now, self.cfg.theta_fade);
        report.faded = faded;
        proof {
            assert forall|m: Seq<char>| before.countable_about(m) implies #[trigger] self@
                .countable_about(m) by {
                assert(capacity::about_countable(
                    dreamt_of(arith, before.long_term, names, seen, now, before.cfg).long_term,
                    m,
                ));
            }
            assert(slept(arith, before, names, seen, now, self@, report));
        }
        report
    }

    /// One sleep cycle: for each subject with live perceptions, `DISTILL` and `IMPRINT`; then `FADE`
    /// sweeps what has fallen below the threshold.
    pub fn breathe(&mut self, subjects: &[&str], now: Tick) -> (r: BreathReport)
        requires
            old(self).lawful(),
            old(self)@.can_dream(text::names_of(subjects@)),
        ensures
            final(self).arithmetic() == old(self).arithmetic(),
            forall|n: Seq<char>|
                old(self)@.countable_about(n) ==> #[trigger] final(self)@.countable_about(n),
            archetype::decaying(old(self)@.long_term) ==> archetype::decaying(
                final(self)@.long_term,
            ),
            ({
                let before = old(self)@;
                let d = dreamt(
                    old(self).arithmetic(),
                    before.long_term,
                    before.short_term,
                    text::names_of(subjects@),
                    now,
                    before.cfg,
                    everything(),
                );
                let awake = before.short_term.filter(
                    perception::alive_at(old(self).arithmetic(), now, before.cfg.theta_fade),
                );
                &&& final(self)@ == (RuntimeView {
                    short_term: awake,
                    long_term: d.long_term,
                    ..before
                })
                &&& r == (BreathReport {
                    distilled_subjects: d.distilled as usize,
                    perceptions_absorbed: d.absorbed as usize,
                    faded: (before.short_term.len() - awake.len()) as usize,
                })
            }),
    {
        let keep = |arith: &A, p: &Perception| -> (b: bool)
            ensures
                b,
            { true };
        self.dream_kept(subjects, now, &keep, Ghost(everything()))
    }

    /// Dreams for subjects over the perceptions that pass a test whose answers are given.
    pub(crate) fn dream_kept<F: Fn(&A, &Perception) -> bool>(
        &mut self,
        subjects: &[&str],
        now: Tick,
        keep: &F,
        Ghost(kept): Ghost<spec_fn(Perception) -> bool>,
    ) -> (r: BreathReport)
        requires
            old(self).lawful(),
            old(self)@.can_dream(text::names_of(subjects@)),
            forall|p: &Perception| #[trigger]
                call_requires(*keep, (&old(self).arithmetic(), p)),
            forall|p: &Perception, b: bool| #[trigger]
                call_ensures(*keep, (&old(self).arithmetic(), p), b) ==> b == kept(*p),
        ensures
            final(self).arithmetic() == old(self).arithmetic(),
            forall|n: Seq<char>|
                old(self)@.countable_about(n) ==> #[trigger] final(self)@.countable_about(n),
            archetype::decaying(old(self)@.long_term) ==> archetype::decaying(
                final(self)@.long_term,
            ),
            slept(
                old(self).arithmetic(),
                old(self)@,
                text::names_of(subjects@),
                seen_in(
                    old(self).arithmetic(),
                    old(self)@.short_term,
                    text::names_of(subjects@),
                    now,
                    old(self)@.cfg,
                    kept,
                ),
                now,
                final(self)@,
                r,
            ),
    {
        let ghost before = self@;
        let ghost arith = self.arithmetic();
        let ghost names = text::names_of(subjects@);
        let r = self.dream(subjects, now, keep, Ghost(selection::verdict(kept)));
        proof {
            let seen = choose|seen: Seq<Seq<Perception>>| #[trigger]
                sights(
                    arith,
                    before.short_term,
                    names,
                    now,
                    before.cfg,
                    selection::verdict(kept),
                    seen,
                ) && slept(arith, before, names, seen, now, self@, r);
            sights_by_a_predicate(
                arith,
                before.short_term,
                names,
                now,
                before.cfg,
                selection::verdict(kept),
                kept,
                seen,
            );
        }
        r
    }

    /// A sleep cycle that distils only the perceptions that pass a test (the `WHERE` clause of
    /// `DISTILL`); only live ones of the subjects are put to it. The sweep that follows is not
    /// restricted.
    pub fn breathe_where<F: Fn(&Perception) -> bool>(
        &mut self,
        subjects: &[&str],
        now: Tick,
        keep: &F,
    ) -> (r: BreathReport)
        requires
            old(self).lawful(),
            old(self)@.can_dream(text::names_of(subjects@)),
            forall|k: int, i: int|
                0 <= k < subjects@.len() && 0 <= i < old(self)@.short_term.len()
                    && perception::alive_of(
                    old(self).arithmetic(),
                    (#[trigger] subjects@[k])@,
                    now,
                    old(self)@.cfg.theta_fade,
                )(#[trigger] old(self)@.short_term[i]) ==> call_requires(
                    *keep,
                    (&old(self)@.short_term[i],),
                ),
        ensures
            final(self).arithmetic() == old(self).arithmetic(),
            forall|n: Seq<char>|
                old(self)@.countable_about(n) ==> #[trigger] final(self)@.countable_about(n),
            archetype::decaying(old(self)@.long_term) ==> archetype::decaying(
                final(self)@.long_term,
            ),
            exists|seen: Seq<Seq<Perception>>| #[trigger]
                sights(
                    old(self).arithmetic(),
                    old(self)@.short_term,
                    text::names_of(subjects@),
                    now,
                    old(self)@.cfg,
                    selection::answers_of(*keep),
                    seen,
                ) && slept(
                    old(self).arithmetic(),
                    old(self)@,
                    text::names_of(subjects@),
                    seen,
                    now,
                    final(self)@,
                    r,
                ),
    {
        let ghost askable = |p: Perception| call_requires(*keep, (&p,));
        let ghost says = selection::answers_of(*keep);
        let test = |arith: &A, p: &Perception| -> (b: bool)
            requires
                askable(*p),
            ensures
                says(*p, b),
            { keep(p) };
        self.dream(subjects, now, &test, Ghost(selection::answers_of(*keep)))
    }

    /// `FADE … WHERE`: sweeps the perceptions that pass the test; returns how many.
    pub fn fade_where<F: Fn(&Perception) -> bool>(&mut self, drop_if: &F) -> (r: usize)
        requires
            forall|i: int|
                0 <= i < old(self)@.short_term.len() ==> call_requires(
                    *drop_if,
                    (&#[trigger] old(self)@.short_term[i],),
                ),
        ensures
            selection::sifted(
                old(self)@.short_term,
                selection::opposite(selection::answers_of(*drop_if)),
                final(self)@.short_term,
            ),
            final(self)@ == (RuntimeView { short_term: final(self)@.short_term, ..old(self)@ }),
            r == old(self)@.short_term.len() - final(self)@.short_term.len(),
            final(self).arithmetic() == old(self).arithmetic(),
    {
        assert forall|i: int| 0 <= i < self.short_term@.len() implies call_requires(
            *drop_if,
            (&#[trigger] self.short_term@[i],),
        ) by {
            assert(call_requires(*drop_if, (&old(self)@.short_term[i],)));
        }
        self.short_term.fade_swept_where(drop_if)
    }

    /// Sweeps the perceptions that pass a test whose answers are given.
    pub(crate) fn forget<F: Fn(&A, &Perception) -> bool>(
        &mut self,
        drop_if: &F,
        Ghost(dropped): Ghost<spec_fn(Perception) -> bool>,
    ) -> (r: usize)
        requires
            forall|p: &Perception| #[trigger]
                call_requires(*drop_if, (&old(self).arithmetic(), p)),
            forall|p: &Perception, b: bool| #[trigger]
                call_ensures(*drop_if, (&old(self).arithmetic(), p), b) ==> b == dropped(*p),
        ensures
            final(self)@ == (RuntimeView {
                short_term: old(self)@.short_term.filter(perception::failing(dropped)),
                ..old(self)@
            }),
            r == old(self)@.short_term.len() - final(self)@.short_term.len(),
            final(self).arithmetic() == old(self).arithmetic(),
    {
        let engine: &A = &self.arith;
        proof {
            assert(*engine == old(self).arithmetic());
            assert forall|p: &Perception| #[trigger] call_requires(*drop_if, (engine, p)) by {
                assert(call_requires(*drop_if, (&old(self).arithmetic(), p)));
            }
            assert forall|p: &Perception, b: bool| #[trigger]
                call_ensures(*drop_if, (engine, p), b) implies b == dropped(*p) by {
                assert(call_ensures(*drop_if, (&old(self).arithmetic(), p), b));
            }
        }
        let test = |p: &Perception| -> (b: bool)
            ensures
                b == dropped(*p),
            { drop_if(engine, p) };
        let ghost before = self.short_term@;
        let r = self.short_term.fade_swept_told(&test, Ghost(selection::verdict(dropped)));
        proof {
            selection::sifting_by_a_predicate(
                before,
                selection::opposite(selection::verdict(dropped)),
                perception::failing(dropped),
                self.short_term@,
            );
        }
        r
    }

    /// `EVOKE`: resolves the essence of a subject within the token budget.
    pub fn evoke(&self, req: &EvokeRequest, now: Tick) -> (r: Option<CompressedContext>)
        requires
            self.lawful(),
            self@.countable_about(req@.subject),
        ensures
            evoke::context_in(r) == evoke::evoked(
                self.arithmetic(),
                self@.long_term,
                req@,
                now,
            ),
            r is Some ==> r->0.token_estimate <= req.token_budget,
    {
        evoke::evoke(&self.arith, &self.long_term, req, now)
    }

    /// Stores an exact fact. A fact that is known already is reinforced, not duplicated.
    pub fn remember(
        &mut self,
        subject: &str,
        text: &str,
        embedding: Vector,
        provenance: &str,
        salience: Double,
        halflife: Double,
        now: Tick,
    ) -> (r: Remember)
        requires
            old(self).lawful(),
            factstore::known_as(
                old(self).arithmetic(),
                old(self)@.facts,
                subject@,
                embedding@,
                old(self)@.sameness,
            ) is None ==> Double::nought().below(halflife),
        ensures
            final(self).arithmetic() == old(self).arithmetic(),
            final(self)@ == (RuntimeView {
                facts: factstore::remembered(
                    old(self).arithmetic(),
                    old(self)@.facts,
                    old(self)@.sameness,
                    factstore::learned(
                        old(self).arithmetic(),
                        subject@,
                        text@,
                        embedding@,
                        provenance@,
                        salience,
                        halflife,
                        now,
                    ),
                ),
                ..old(self)@
            }),
            r == (if factstore::known_as(
                old(self).arithmetic(),
                old(self)@.facts,
                subject@,
                embedding@,
                old(self)@.sameness,
            ) is Some {
                Remember::Merged
            } else {
                Remember::Inserted
            }),
    {
        self.facts.remember(
            &self.arith,
            subject,
            text,
            embedding,
            provenance,
            salience,
            halflife,
            now,
        )
    }

    /// `RECALL`: the exact facts about a subject that score best against a query. What is recalled
    /// is reinforced.
    pub fn recall(&mut self, subject: &str, query: &Vector, k: usize, now: Tick) -> (r: Vec<
        RecalledFact,
    >)
        requires
            old(self).lawful(),
        ensures
            final(self).arithmetic() == old(self).arithmetic(),
            ({
                let at = factstore::hits(
                    old(self).arithmetic(),
                    old(self)@.facts,
                    subject@,
                    query@,
                    k as nat,
                    now,
                    old(self)@.cfg.theta_fade,
                );
                &&& factstore::recalls_of(r@) == factstore::recalled_at(
                    old(self).arithmetic(),
                    old(self)@.facts,
                    at,
                    query@,
                    now,
                )
                &&& final(self)@ == (RuntimeView {
                    facts: factstore::revisited_at(
                        old(self).arithmetic(),
                        old(self)@.facts,
                        at,
                        now,
                    ),
                    ..old(self)@
                })
            }),
    {
        self.facts.recall(&self.arith, subject, query, k, now, self.cfg.theta_fade)
    }

    /// Unified `EVOKE`: character and exact facts under one budget. Nothing is reinforced.
    pub fn evoke_unified<F: Fn(&str) -> usize>(
        &self,
        req: &EvokeRequest,
        query: &Vector,
        fact_budget: usize,
        now: Tick,
        fact_cost: &F,
    ) -> (r: UnifiedContext)
        requires
            self.lawful(),
            self@.countable_about(req@.subject),
            evoke::payable(
                *fact_cost,
                self@.facts,
                evoke::offers(self.arithmetic(), self@.facts, req@, query@, now),
            ),
        ensures
            exists|costs: Seq<usize>| #[trigger]
                evoke::priced_at(
                    *fact_cost,
                    self@.facts,
                    evoke::offers(self.arithmetic(), self@.facts, req@, query@, now),
                    costs,
                ) && r@ == evoke::unified(
                    self.arithmetic(),
                    self@.long_term,
                    self@.facts,
                    req@,
                    query@,
                    fact_budget,
                    now,
                    costs,
                ),
            r.total_tokens <= req.token_budget,
    {
        evoke::evoke_unified(
            &self.arith,
            &self.long_term,
            &self.facts,
            req,
            query,
            fact_budget,
            now,
            fact_cost,
        )
    }

    /// `IMPRINT`: anchors the archetype of a subject. Returns `false` if there is none.
    pub fn consolidate(&mut self, subject: &str, now: Tick, consolidation: Double) -> (r: bool)
        requires
            old(self).lawful(),
            Double::nought().at_most(consolidation),
            consolidation.below(Double { bits: ONE }),
        ensures
            final(self).arithmetic() == old(self).arithmetic(),
            forall|n: Seq<char>|
                old(self)@.countable_about(n) ==> #[trigger] final(self)@.countable_about(n),
            archetype::decaying(old(self)@.long_term) ==> archetype::decaying(
                final(self)@.long_term,
            ),
            r == archetype::place_of(old(self)@.long_term, subject@) is Some,
            final(self)@ == match archetype::place_of(old(self)@.long_term, subject@) {
                Some(i) => (RuntimeView {
                    long_term: old(self)@.long_term.update(
                        i,
                        old(self)@.long_term[i].anchored(
                            old(self).arithmetic(),
                            now,
                            consolidation,
                        ),
                    ),
                    ..old(self)@
                }),
                None => old(self)@,
            },
    {
        let ghost before = self@.long_term;
        let done = self.long_term.consolidate(&self.arith, subject, now, consolidation);
        proof {
            let after = self@.long_term;
            if let Some(i) = archetype::place_of(before, subject@) {
                assert(archetype::first_about(before, subject@, i));
                assert forall|n: Seq<char>|
                    capacity::about_countable(
                        before,
                        n,
                    ) implies #[trigger] self@.countable_about(n) by {
                    archetype::updating_keeps_places(before, i, after[i], n);
                }
            }
        }
        done
    }

    /// What the arc of a subject says; nothing where the subject has no archetype.
    pub fn reflect(&self, subject: &str) -> (r: Vec<Insight>)
        requires
            self.lawful(),
            self@.countable_about(subject@),
        ensures
            reflection::insights_of(r@) == match archetype::place_of(self@.long_term, subject@) {
                Some(i) => reflection::reflected(
                    self.arithmetic(),
                    self@.long_term[i].arc,
                ),
                None => Seq::empty(),
            },
    {
        match self.long_term.get(subject) {
            Some(a) => {
                proof {
                    let i = archetype::place_of(self@.long_term, subject@)->0;
                    assert(archetype::first_about(self@.long_term, subject@, i));
                    assert(capacity::arc_countable(self@.long_term[i].arc));
                }
                reflection::reflect(&self.arith, &a.arc)
            },
            None => {
                let none: Vec<Insight> = Vec::new();
                assert(reflection::insights_of(none@) =~= Seq::empty());
                none
            },
        }
    }

    /// The materials of the insights about an archetype.
    fn gather(arith: &A, a: &Archetype) -> (r: Vec<(String, Vector)>)
        requires
            arithmetic::lawful(*arith),
            capacity::arc_countable(a@.arc),
        ensures
            evoke::series_of(r@) == materials(a@, reflection::reflected(*arith, a@.arc)),
    {
        let insights = reflection::reflect(arith, &a.arc);
        let ghost all = reflection::insights_of(insights@);
        let mut out: Vec<(String, Vector)> = Vec::new();
        let mut i: usize = 0;
        proof {
            assert(all.take(0) =~= Seq::empty());
            assert(evoke::series_of(out@) =~= materials(a@, all.take(0)));
        }
        while i < insights.len()
            invariant
                i <= insights.len(),
                all == reflection::insights_of(insights@),
                evoke::series_of(out@) == materials(a@, all.take(i as int)),
            decreases insights.len() - i,
        {
            let ghost had = evoke::series_of(out@);
            proof {
                assert(all.take(i + 1).drop_last() =~= all.take(i as int));
                assert(all.take(i + 1).last() == insights@[i as int]@);
            }
            match reflection::materialize(a, &insights[i]) {
                Some(m) => {
                    let ghost view = (m.0@, m.1@);
                    out.push(m);
                    assert(evoke::series_of(out@) =~= had.push(view));
                },
                None => {},
            }
            i += 1;
        }
        proof {
            assert(all.take(i as int) =~= all);
        }
        out
    }

    /// Reflective sleep: stores the insights about a subject as facts of high salience, so that they
    /// can be recalled. Returns how many were handed to memory.
    pub fn dream_reflect(&mut self, subject: &str, now: Tick) -> (r: usize)
        requires
            old(self).lawful(),
            old(self)@.countable_about(subject@),
        ensures
            final(self).arithmetic() == old(self).arithmetic(),
            match archetype::place_of(old(self)@.long_term, subject@) {
                Some(i) => {
                    let a = old(self)@.long_term[i];
                    let ms = materials(a, reflection::reflected(old(self).arithmetic(), a.arc));
                    &&& r == ms.len()
                    &&& final(self)@ == (RuntimeView {
                        facts: remembered_all(
                            old(self).arithmetic(),
                            old(self)@.facts,
                            old(self)@.sameness,
                            subject@,
                            ms,
                            now,
                        ),
                        ..old(self)@
                    })
                },
                None => r == 0 && final(self)@ == old(self)@,
            },
    {
        let ghost before = self@;
        let ghost arith = self.arith;
        let material: Vec<(String, Vector)> = match self.long_term.get(subject) {
            Some(a) => {
                proof {
                    let i = archetype::place_of(self@.long_term, subject@)->0;
                    assert(archetype::first_about(self@.long_term, subject@, i));
                    assert(capacity::arc_countable(self@.long_term[i].arc));
                }
                Self::gather(&self.arith, a)
            },
            None => {
                return 0;
            },
        };
        let ghost all = evoke::series_of(material@);
        let mut i: usize = 0;
        proof {
            assert(all.take(0) =~= Seq::empty());
        }
        while i < material.len()
            invariant
                i <= material.len(),
                all == evoke::series_of(material@),
                self.arith == arith,
                arithmetic::lawful(arith),
                self.cfg == before.cfg,
                self.short_term@ == before.short_term,
                self.long_term@ == before.long_term,
                self.facts.sameness() == before.sameness,
                self.facts@ == remembered_all(
                    arith,
                    before.facts,
                    before.sameness,
                    subject@,
                    all.take(i as int),
                    now,
                ),
            decreases material.len() - i,
        {
            proof {
                assert(all.take(i + 1).drop_last() =~= all.take(i as int));
                assert(all.take(i + 1).last() == (material@[i as int].0@, material@[i as int].1@));
            }
            let _ = self.facts.remember(
                &self.arith,
                subject,
                material[i].0.as_str(),
                crate::number::copy_vector(&material[i].1),
                "reflection",
                Double { bits: DEFAULT_INSIGHT_SALIENCE },
                Double { bits: INSIGHT_HALFLIFE_SECS },
                now,
            );
            i += 1;
        }
        proof {
            assert(all.take(i as int) =~= all);
        }
        material.len()
    }

    /// `FADE` of the episodic layer: sweeps the facts below the threshold; returns how many.
    pub fn fade_facts(&mut self, now: Tick) -> (r: usize)
        requires
            old(self).lawful(),
        ensures
            final(self)@ == (RuntimeView {
                facts: old(self)@.facts.filter(
                    factstore::alive_at(
                        old(self).arithmetic(),
                        now,
                        old(self)@.cfg.theta_fade,
                    ),
                ),
                ..old(self)@
            }),
            r == old(self)@.facts.len() - final(self)@.facts.len(),
            final(self).arithmetic() == old(self).arithmetic(),
    {
        self.facts.fade(&self.arith, now, self.cfg.theta_fade)
    }

    /// The episodic memory.
    pub fn facts(&self) -> (r: &FactStore)
        ensures
            r@ == self@.facts,
            r.sameness() == self@.sameness,
    {
        &self.facts
    }

    /// The episodic memory, to be restored.
    pub fn facts_mut(&mut self) -> (r: &mut FactStore)
        ensures
            r@ == old(self)@.facts,
            r.sameness() == old(self)@.sameness,
            final(self)@ == (RuntimeView {
                facts: final(r)@,
                sameness: final(r).sameness(),
                ..old(self)@
            }),
            final(self).arithmetic() == old(self).arithmetic(),
    {
        &mut self.facts
    }

    /// `FADE` without a sleep cycle: sweeps the perceptions below a threshold; returns how many.
    pub fn fade_only(&mut self, now: Tick, theta: Double) -> (r: usize)
        requires
            old(self).lawful(),
        ensures
            final(self)@ == (RuntimeView {
                short_term: old(self)@.short_term.filter(
                    perception::alive_at(old(self).arithmetic(), now, theta),
                ),
                ..old(self)@
            }),
            r == old(self)@.short_term.len() - final(self)@.short_term.len(),
            final(self).arithmetic() == old(self).arithmetic(),
    {
        self.short_term.fade_swept(&self.arith, now, theta)
    }

    /// The long-term memory.
    pub fn long_term(&self) -> (r: &ArchetypeStore)
        ensures
            r@ == self@.long_term,
    {
        &self.long_term
    }

    /// The long-term memory, to be restored.
    pub fn long_term_mut(&mut self) -> (r: &mut ArchetypeStore)
        ensures
            r@ == old(self)@.long_term,
            final(self)@ == (RuntimeView { long_term: final(r)@, ..old(self)@ }),
            final(self).arithmetic() == old(self).arithmetic(),
    {
        &mut self.long_term
    }

    /// How many modes a cycle may have.
    pub(crate) fn max_modes(&self) -> (r: usize)
        ensures
            r == self@.cfg.distill.modes.max_modes,
    {
        self.cfg.distill.modes.max_modes
    }

    /// Number of perceptions in short-term memory.
    pub fn short_term_len(&self) -> (r: usize)
        ensures
            r == self@.short_term.len(),
    {
        self.short_term.len()
    }

    /// Number of archetypes in long-term memory.
    pub fn long_term_len(&self) -> (r: usize)
        ensures
            r == self@.long_term.len(),
    {
        self.long_term.len()
    }
}

/// Dreaming keeps one archetype per subject, and leaves the archetypes of all other subjects as they
/// were.
pub proof fn dreaming_keeps_identities<A: Arithmetic>(
    arith: A,
    long_term: Seq<ArchetypeView>,
    subjects: Seq<Seq<char>>,
    seen: Seq<Seq<Perception>>,
    now: Tick,
    cfg: RuntimeConfig,
)
    requires
        archetype::one_each(long_term),
    ensures
        ({
            let d = dreamt_of(arith, long_term, subjects, seen, now, cfg).long_term;
            &&& archetype::one_each(d)
            &&& d.len() >= long_term.len()
            &&& forall|i: int|
                0 <= i < long_term.len() ==> (#[trigger] d[i]).subject == long_term[i].subject && (
                !subjects.contains(long_term[i].subject) ==> d[i] == long_term[i])
        }),
    decreases subjects.len(),
{
    if subjects.len() > 0 {
        let init = subjects.drop_last();
        dreaming_keeps_identities(arith, long_term, init, seen, now, cfg);
        let d = dreamt_of(arith, long_term, init, seen, now, cfg).long_term;
        let t = dreamt_of(arith, long_term, subjects, seen, now, cfg).long_term;
        match essence_of(arith, subjects.last(), seen[subjects.len() - 1], cfg) {
            Some(iv) => {
                archetype::imprinting_evolves_in_place(arith, d, iv, cfg.resilience, now);
                assert forall|i: int| 0 <= i < long_term.len() implies (#[trigger] t[i]).subject
                    == long_term[i].subject && (!subjects.contains(long_term[i].subject) ==> t[i]
                    == long_term[i]) by {
                    assert(d[i].subject == long_term[i].subject);
                    let place = archetype::place_of(d, iv.subject);
                    if place is Some {
                        assert(archetype::first_about(d, iv.subject, place->0));
                    }
                    if !subjects.contains(long_term[i].subject) {
                        assert(subjects[subjects.len() - 1] == iv.subject);
                        assert(!init.contains(long_term[i].subject)) by {
                            if init.contains(long_term[i].subject) {
                                let k = choose|k: int|
                                    0 <= k < init.len() && init[k] == long_term[i].subject;
                                assert(subjects[k] == long_term[i].subject);
                            }
                        }
                    }
                }
            },
            None => {
                assert forall|i: int| 0 <= i < long_term.len() implies (#[trigger] t[i]).subject
                    == long_term[i].subject && (!subjects.contains(long_term[i].subject) ==> t[i]
                    == long_term[i]) by {
                    assert(d[i].subject == long_term[i].subject);
                    if !subjects.contains(long_term[i].subject) {
                        assert(!init.contains(long_term[i].subject)) by {
                            if init.contains(long_term[i].subject) {
                                let k = choose|k: int|
                                    0 <= k < init.len() && init[k] == long_term[i].subject;
                                assert(subjects[k] == long_term[i].subject);
                            }
                        }
                    }
                }
            },
        }
    }
}

/// What is perceived and dreamt can be evoked: after a breath for a subject whose live perceptions
/// have an essence, the subject has an archetype that represents all of them on top of what it
/// represented before, and an evocation answers with it unless it is below the forgetting threshold.
pub proof fn what_is_dreamt_can_be_evoked<A: Arithmetic>(
    arith: A,
    m: RuntimeView,
    subject: Seq<char>,
    now: Tick,
    req: evoke::RequestView,
)
    requires
        archetype::one_each(m.long_term),
        m.can_dream(seq![subject]),
        req.subject == subject,
        essence_of(
            arith,
            subject,
            m.short_term.filter(
                perception::alive_where(arith, subject, now, m.cfg.theta_fade, everything()),
            ),
            m.cfg,
        ) is Some,
    ensures
        ({
            let alive = m.short_term.filter(
                perception::alive_where(arith, subject, now, m.cfg.theta_fade, everything()),
            );
            let had = match archetype::place_of(m.long_term, subject) {
                Some(i) => m.long_term[i].represented as int,
                None => 0,
            };
            let d = dreamt(
                arith,
                m.long_term,
                m.short_term,
                seq![subject],
                now,
                m.cfg,
                everything(),
            ).long_term;
            let a = d[archetype::place_of(d, subject)->0];
            &&& archetype::place_of(d, subject) is Some
            &&& a.represented == had + alive.len()
            &&& a.arc.last().at == now
            &&& match evoke::evoked(arith, d, req, now) {
                Some(c) => c.represented == a.represented,
                None => a.trace.life(arith, now).below(Double { bits: DEFAULT_THETA_FADE }),
            }
        }),
{
    let pred = perception::alive_where(arith, subject, now, m.cfg.theta_fade, everything());
    let alive = m.short_term.filter(pred);
    selection::filter_is_shorter(m.short_term, pred);
    let none = seq![subject].drop_last();
    assert(none =~= Seq::empty());
    let seen = seen_in(arith, m.short_term, seq![subject], now, m.cfg, everything());
    assert(seen[0] == alive);
    assert(dreamt_of(arith, m.long_term, none, seen, now, m.cfg).long_term == m.long_term);
    let iv = essence_of(arith, subject, alive, m.cfg)->0;
    assert(perception::views_of(alive).len() > 0);
    assert(1 * m.short_term.len() == m.short_term.len());
    archetype::imprinting_evolves_in_place(arith, m.long_term, iv, m.cfg.resilience, now);
    let place = archetype::place_of(m.long_term, subject);
    if place is Some {
        assert(archetype::first_about(m.long_term, subject, place->0));
        assert(capacity::about_ready(
            m.long_term,
            seq![subject][0],
            (usize::MAX - m.short_term.len()) as nat,
        ));
    }
    let d = archetype::imprinted_into(arith, m.long_term, iv, m.cfg.resilience, now);
    let k = archetype::place_of(d, subject)->0;
    assert(archetype::first_about(d, subject, k));
}

/// A dream goes subject by subject, in their order: what is seen of a subject is distilled, what comes of
/// it is imprinted with the resilience of the runtime into what the dream has left so far, and it is
/// counted; where nothing comes of it, nothing changes.
pub proof fn dreams_go_subject_by_subject<A: Arithmetic>(
    arith: A,
    long_term: Seq<ArchetypeView>,
    subjects: Seq<Seq<char>>,
    seen: Seq<Seq<Perception>>,
    subject: Seq<char>,
    sight: Seq<Perception>,
    now: Tick,
    cfg: RuntimeConfig,
)
    requires
        seen.len() == subjects.len(),
    ensures
        ({
            let d = dreamt_of(arith, long_term, subjects, seen, now, cfg);
            let e = dreamt_of(
                arith,
                long_term,
                subjects.push(subject),
                seen.push(sight),
                now,
                cfg,
            );
            let nothing = dreamt_of(arith, long_term, Seq::empty(), seen, now, cfg);
            &&& nothing.long_term == long_term
            &&& nothing.distilled == 0
            &&& nothing.absorbed == 0
            &&& match synthesis::distilled(
                arith,
                subject,
                perception::views_of(sight),
                cfg.distill,
            ) {
                Some(iv) => {
                    &&& e.long_term == archetype::imprinted_into(
                        arith,
                        d.long_term,
                        iv,
                        cfg.resilience,
                        now,
                    )
                    &&& e.distilled == d.distilled + 1
                    &&& e.absorbed == d.absorbed + iv.absorbed
                },
                None => {
                    &&& e.long_term == d.long_term
                    &&& e.distilled == d.distilled
                    &&& e.absorbed == d.absorbed
                },
            }
        }),
{
    assert(subjects.push(subject).drop_last() =~= subjects);
    dreams_by_prefix(arith, long_term, subjects, seen, seen.push(sight), now, cfg);
}

/// A dream sees of each subject its live perceptions that pass the test, all of them, in their order, and
/// nothing else; a breath without a test sees all that live.
pub proof fn dreams_see_the_living<A: Arithmetic>(
    arith: A,
    short_term: Seq<Perception>,
    subjects: Seq<Seq<char>>,
    now: Tick,
    cfg: RuntimeConfig,
    kept: spec_fn(Perception) -> bool,
    i: int,
    p: Perception,
)
    requires
        0 <= i < subjects.len(),
    ensures
        seen_in(arith, short_term, subjects, now, cfg, kept).len() == subjects.len(),
        seen_in(arith, short_term, subjects, now, cfg, kept)[i].contains(p) <==> {
            &&& short_term.contains(p)
            &&& p.subject@ == subjects[i]
            &&& cfg.theta_fade.at_most(p.trace.life(arith, now))
            &&& kept(p)
        },
        everything()(p),
{
    perception::only_the_living_are_seen(
        arith,
        short_term,
        subjects[i],
        now,
        cfg.theta_fade,
        kept,
        p,
    );
}

/// A sleep leaves in short-term memory what weighs the threshold or more, and sweeps the rest, seen or
/// not; the facts and the configuration stay; and it reports how many subjects it distilled, how many
/// perceptions they absorbed, and how many were swept.
pub proof fn sleep_sweeps_and_reports<A: Arithmetic>(
    arith: A,
    before: RuntimeView,
    subjects: Seq<Seq<char>>,
    seen: Seq<Seq<Perception>>,
    now: Tick,
    after: RuntimeView,
    r: BreathReport,
    p: Perception,
)
    requires
        slept(arith, before, subjects, seen, now, after, r),
        before.short_term.len() <= usize::MAX,
    ensures
        after.facts == before.facts,
        after.sameness == before.sameness,
        after.cfg == before.cfg,
        after.short_term.contains(p) <==> before.short_term.contains(p)
            && before.cfg.theta_fade.at_most(p.trace.life(arith, now)),
        r.faded == before.short_term.len() - after.short_term.len(),
        ({
            let d = dreamt_of(arith, before.long_term, subjects, seen, now, before.cfg);
            &&& after.long_term == d.long_term
            &&& r.distilled_subjects == d.distilled as usize
            &&& r.perceptions_absorbed == d.absorbed as usize
        }),
{
    let kept = perception::alive_at(arith, now, before.cfg.theta_fade);
    selection::filter_members(before.short_term, kept, p);
    selection::filter_is_shorter(before.short_term, kept);
}

/// What a subject did last is what it is now: after a breath for a subject whose live perceptions have
/// an essence, its archetype is named after what dominates them, and its last milestone is where they
/// stood.
pub proof fn a_breath_brings_the_archetype_up_to_date<A: Arithmetic>(
    arith: A,
    m: RuntimeView,
    subject: Seq<char>,
    now: Tick,
    label: Seq<char>,
)
    requires
        m.short_term.len() <= usize::MAX,
        essence_of(
            arith,
            subject,
            m.short_term.filter(
                perception::alive_where(arith, subject, now, m.cfg.theta_fade, everything()),
            ),
            m.cfg,
        ) is Some,
    ensures
        ({
            let alive = perception::views_of(
                m.short_term.filter(
                    perception::alive_where(arith, subject, now, m.cfg.theta_fade, everything()),
                ),
            );
            let labels = perception::labels_of(alive);
            let d = dreamt(
                arith,
                m.long_term,
                m.short_term,
                seq![subject],
                now,
                m.cfg,
                everything(),
            ).long_term;
            let a = d[archetype::place_of(d, subject)->0];
            &&& archetype::place_of(d, subject) is Some
            &&& a.subject == subject
            &&& labels.contains(a.core_label)
            &&& crate::histogram::occurrences(labels, label) <= crate::histogram::occurrences(
                labels,
                a.core_label,
            )
            &&& a.arc.last().label == a.core_label
            &&& a.arc.last().at == now
            &&& a.arc.last().direction == arithmetic::mean_of(
                arith,
                perception::embeddings_of(alive),
            )
            &&& a.trace.last_touch == now
        }),
{
    let pred = perception::alive_where(arith, subject, now, m.cfg.theta_fade, everything());
    let alive = m.short_term.filter(pred);
    selection::filter_is_shorter(m.short_term, pred);
    let none = seq![subject].drop_last();
    assert(none =~= Seq::empty());
    let seen = seen_in(arith, m.short_term, seq![subject], now, m.cfg, everything());
    assert(seen[0] == alive);
    let iv = essence_of(arith, subject, alive, m.cfg)->0;
    synthesis::cycles_are_named_after_what_dominates(
        arith,
        subject,
        perception::views_of(alive),
        m.cfg.distill,
        label,
    );
    synthesis::novelty_is_listed_in_its_order(
        arith,
        subject,
        perception::views_of(alive),
        m.cfg.distill,
    );
    archetype::imprinting_takes_over_the_cycle(arith, m.long_term, iv, m.cfg.resilience, now);
    assert(dreamt_of(arith, m.long_term, none, seen, now, m.cfg).long_term == m.long_term);
    assert(dreamt(
        arith,
        m.long_term,
        m.short_term,
        seq![subject],
        now,
        m.cfg,
        everything(),
    ).long_term == archetype::imprinted_into(arith, m.long_term, iv, m.cfg.resilience, now));
}

/// Insights are remembered as facts, one after the other: each that can be put into words, as a fact about
/// the subject that reflection contributed, of the salience and half-life of insights.
pub proof fn insights_are_remembered_as_facts<A: Arithmetic>(
    arith: A,
    a: ArchetypeView,
    insights: Seq<InsightView>,
    insight: InsightView,
    s: Seq<FactView>,
    theta: Single,
    subject: Seq<char>,
    ms: Seq<(Seq<char>, Seq<Single>)>,
    m: (Seq<char>, Seq<Single>),
    now: Tick,
    rate: Double,
)
    requires
        arithmetic::lawful(arith),
        call_ensures(
            A::div64,
            (&arith, Double { bits: crate::entropy::LN2 }, Double { bits: 0x415d_a9c0_0000_0000 }),
            rate,
        ),
    ensures
        materials(a, Seq::empty()).len() == 0,
        materials(a, insights.push(insight)) == match reflection::material(a, insight) {
            Some(x) => materials(a, insights).push(x),
            None => materials(a, insights),
        },
        remembered_all(arith, s, theta, subject, Seq::empty(), now) == s,
        remembered_all(arith, s, theta, subject, ms.push(m), now) == factstore::remembered(
            arith,
            remembered_all(arith, s, theta, subject, ms, now),
            theta,
            (FactView {
                subject,
                text: m.0,
                embedding: m.1,
                provenance: "reflection"@,
                created_at: now,
                trace: crate::entropy::EntropyTrace {
                    salience: Double { bits: 0x3fec_cccc_cccc_cccd },
                    lambda: rate,
                    reinforcement: Double { bits: 0 },
                    last_touch: now,
                },
            }),
        ),
{
    assert(insights.push(insight).drop_last() =~= insights);
    assert(ms.push(m).drop_last() =~= ms);
    factstore::facts_are_learned_as_told(
        arith,
        subject,
        m.0,
        m.1,
        "reflection"@,
        Double { bits: DEFAULT_INSIGHT_SALIENCE },
        Double { bits: INSIGHT_HALFLIFE_SECS },
        now,
        rate,
    );
}

} // verus!
