//! Fact layer: episodic memory.
//!
//! The archetype generalises; a fact does not. It is verbatim knowledge, recoverable word for word,
//! under the same forgetting physics as everything else: a fact that is not revisited decays and is
//! swept, one that is recalled or repeated is reinforced.

use crate::archetype;
use crate::arithmetic;
use crate::arithmetic::Arithmetic;
use crate::entropy::EntropyTrace;
use crate::entropy::Tick;
use crate::number;
use crate::number::Double;
use crate::number::Single;
use crate::number::Vector;
use crate::ranking;
use crate::selection;
use crate::text;
use vstd::prelude::*;

verus! {

/// Pattern of the default cosine at which two facts are the same fact: `0.95`.
pub const DEFAULT_FACT_DEDUP: u32 = 0x3f73_3333;

/// Pattern of the share by which recalling or repeating a fact lowers its decay rate: `0.1`.
pub const DEFAULT_FACT_CONSOLIDATION: u64 = 0x3fb9_9999_9999_999a;

/// An episodic fact.
#[derive(Debug)]
pub struct Fact {
    /// Whom the fact is about.
    pub subject: String,
    /// Exact content, returned as it was learned.
    pub text: String,
    /// Semantic embedding, the basis of retrieval and deduplication.
    pub embedding: Vector,
    /// Who contributed the fact.
    pub provenance: String,
    /// When the fact was learned; it never changes.
    pub created_at: Tick,
    /// Forgetting physics of the fact.
    pub trace: EntropyTrace,
}

/// What a fact holds.
#[verifier::ext_equal]
pub struct FactView {
    pub subject: Seq<char>,
    pub text: Seq<char>,
    pub embedding: Seq<Single>,
    pub provenance: Seq<char>,
    pub created_at: Tick,
    pub trace: EntropyTrace,
}

impl View for Fact {
    type V = FactView;

    open spec fn view(&self) -> FactView {
        FactView {
            subject: self.subject@,
            text: self.text@,
            embedding: self.embedding@,
            provenance: self.provenance@,
            created_at: self.created_at,
            trace: self.trace,
        }
    }
}

impl FactView {
    /// How a fact ranks against a query: relevance, never negative, times life.
    pub open spec fn score<A: Arithmetic>(self, arith: A, query: Seq<Single>, now: Tick) -> Double {
        archetype::scored(
            arith,
            arithmetic::similarity(arith, self.embedding, query),
            self.trace.life(arith, now),
        )
    }

    /// The fact after it was recalled or repeated.
    pub open spec fn revisited<A: Arithmetic>(self, arith: A, now: Tick) -> FactView {
        FactView {
            trace: self.trace.touched(arith, now, Double { bits: DEFAULT_FACT_CONSOLIDATION }),
            ..self
        }
    }
}

impl Clone for Fact {
    fn clone(&self) -> (r: Fact)
        ensures
            r@ == self@,
    {
        Fact {
            subject: self.subject.clone(),
            text: self.text.clone(),
            embedding: number::copy_vector(&self.embedding),
            provenance: self.provenance.clone(),
            created_at: self.created_at,
            trace: self.trace,
        }
    }
}

/// What each fact of a list holds.
pub open spec fn facts_of(s: Seq<Fact>) -> Seq<FactView> {
    Seq::new(s.len(), |i: int| s[i]@)
}

/// What became of a fact that was to be remembered.
#[derive(Clone, Copy, Debug, PartialEq, Eq, Structural)]
pub enum Remember {
    /// It was new and is now stored.
    Inserted,
    /// It was known: the known fact was reinforced.
    Merged,
}

/// A fact as it was recalled: a copy, with the score it ranked with.
#[derive(Debug)]
pub struct RecalledFact {
    pub text: String,
    pub provenance: String,
    /// `relevance · life`.
    pub score: Double,
}

/// What a recalled fact holds.
#[verifier::ext_equal]
pub struct RecalledView {
    pub text: Seq<char>,
    pub provenance: Seq<char>,
    pub score: Double,
}

impl View for RecalledFact {
    type V = RecalledView;

    open spec fn view(&self) -> RecalledView {
        RecalledView { text: self.text@, provenance: self.provenance@, score: self.score }
    }
}

impl Clone for RecalledFact {
    fn clone(&self) -> (r: RecalledFact)
        ensures
            r@ == self@,
    {
        RecalledFact {
            text: self.text.clone(),
            provenance: self.provenance.clone(),
            score: self.score,
        }
    }
}

/// What each recalled fact of a list holds.
pub open spec fn recalls_of(s: Seq<RecalledFact>) -> Seq<RecalledView> {
    Seq::new(s.len(), |i: int| s[i]@)
}

/// How much each fact resembles an embedding.
pub open spec fn fact_resemblances<A: Arithmetic>(
    arith: A,
    s: Seq<FactView>,
    x: Seq<Single>,
) -> Seq<Single> {
    Seq::new(s.len(), |i: int| arithmetic::similarity(arith, s[i].embedding, x))
}

/// The positions of the facts about a subject.
pub open spec fn about(s: Seq<FactView>, subject: Seq<char>) -> spec_fn(int) -> bool {
    |i: int| s[i].subject == subject
}

/// The position of the known fact that an embedding is the same as: of the facts about the subject
/// the one it resembles most, if it reaches the threshold.
pub open spec fn known_as<A: Arithmetic>(
    arith: A,
    s: Seq<FactView>,
    subject: Seq<char>,
    x: Seq<Single>,
    theta: Single,
) -> Option<int> {
    ranking::last_best(fact_resemblances(arith, s, x), about(s, subject), theta)
}

/// A fact learned at `now`.
pub open spec fn learned<A: Arithmetic>(
    arith: A,
    subject: Seq<char>,
    text: Seq<char>,
    embedding: Seq<Single>,
    provenance: Seq<char>,
    salience: Double,
    halflife: Double,
    now: Tick,
) -> FactView {
    FactView {
        subject,
        text,
        embedding,
        provenance,
        created_at: now,
        trace: EntropyTrace::fresh(arith, salience, halflife, now),
    }
}

/// The facts after one was to be remembered: the known fact that it is the same as is revisited, or
/// else it is stored.
pub open spec fn remembered<A: Arithmetic>(
    arith: A,
    s: Seq<FactView>,
    theta: Single,
    fact: FactView,
) -> Seq<FactView> {
    match known_as(arith, s, fact.subject, fact.embedding, theta) {
        Some(i) => s.update(i, s[i].revisited(arith, fact.created_at)),
        None => s.push(fact),
    }
}

/// The facts about a subject that are at or above a forgetting threshold.
pub open spec fn alive_about<A: Arithmetic>(
    arith: A,
    subject: Seq<char>,
    now: Tick,
    theta: Double,
) -> spec_fn(Fact) -> bool {
    |f: Fact| f.subject@ == subject && f.trace.alive(arith, now, theta)
}

/// The facts about a subject that are not below a forgetting threshold.
pub open spec fn unfaded_about<A: Arithmetic>(
    arith: A,
    subject: Seq<char>,
    now: Tick,
    theta: Double,
) -> spec_fn(FactView) -> bool {
    |f: FactView| f.subject == subject && !f.trace.life(arith, now).below(theta)
}

/// The facts that are at or above a forgetting threshold.
pub open spec fn alive_at<A: Arithmetic>(arith: A, now: Tick, theta: Double) -> spec_fn(
    FactView,
) -> bool {
    |f: FactView| f.trace.alive(arith, now, theta)
}

/// The scores of the facts at some places.
pub open spec fn scores_at<A: Arithmetic>(
    arith: A,
    s: Seq<FactView>,
    at: Seq<int>,
    query: Seq<Single>,
    now: Tick,
) -> Seq<Double> {
    Seq::new(at.len(), |j: int| s[at[j]].score(arith, query, now))
}

/// The places of the `k` unfaded facts about a subject that score best against a query, best first.
pub open spec fn hits<A: Arithmetic>(
    arith: A,
    s: Seq<FactView>,
    subject: Seq<char>,
    query: Seq<Single>,
    k: nat,
    now: Tick,
    theta: Double,
) -> Seq<int> {
    let at = selection::places(s, unfaded_about(arith, subject, now, theta));
    ranking::top_places(at, scores_at(arith, s, at, query, now), k)
}

/// The facts at some places, with their scores, as they are handed out.
pub open spec fn recalled_at<A: Arithmetic>(
    arith: A,
    s: Seq<FactView>,
    at: Seq<int>,
    query: Seq<Single>,
    now: Tick,
) -> Seq<RecalledView> {
    Seq::new(
        at.len(),
        |j: int|
            RecalledView {
                text: s[at[j]].text,
                provenance: s[at[j]].provenance,
                score: s[at[j]].score(arith, query, now),
            },
    )
}

/// The facts after those at some places were revisited.
pub open spec fn revisited_at<A: Arithmetic>(
    arith: A,
    s: Seq<FactView>,
    at: Seq<int>,
    now: Tick,
) -> Seq<FactView> {
    Seq::new(
        s.len(),
        |i: int|
            if at.contains(i) {
                s[i].revisited(arith, now)
            } else {
                s[i]
            },
    )
}

/// Episodic memory: verbatim facts with forgetting and deduplication, isolated per subject.
#[derive(Debug)]
pub struct FactStore {
    facts: Vec<Fact>,
    theta_dedup: Single,
}

impl View for FactStore {
    type V = Seq<FactView>;

    closed spec fn view(&self) -> Seq<FactView> {
        facts_of(self.facts@)
    }
}

impl Default for FactStore {
    fn default() -> (r: FactStore)
        ensures
            r@ == Seq::<FactView>::empty(),
            r.sameness() == (Single { bits: DEFAULT_FACT_DEDUP }),
    {
        FactStore::new()
    }
}

impl Clone for FactStore {
    fn clone(&self) -> (r: FactStore)
        ensures
            r@ == self@,
            r.sameness() == self.sameness(),
    {
        let mut facts: Vec<Fact> = Vec::new();
        let mut i: usize = 0;
        while i < self.facts.len()
            invariant
                i <= self.facts.len(),
                facts.len() == i,
                forall|k: int| 0 <= k < i ==> (#[trigger] facts@[k])@ == self.facts@[k]@,
            decreases self.facts.len() - i,
        {
            facts.push(self.facts[i].clone());
            i += 1;
        }
        let r = FactStore { facts, theta_dedup: self.theta_dedup };
        assert(r@ =~= self@);
        r
    }
}

impl FactStore {
    /// The cosine at which two facts are the same fact.
    pub closed spec fn sameness(&self) -> Single {
        self.theta_dedup
    }

    /// The facts themselves.
    pub closed spec fn stored(&self) -> Seq<Fact> {
        self.facts@
    }

    /// An empty memory.
    pub fn new() -> (r: FactStore)
        ensures
            r@ == Seq::<FactView>::empty(),
            r.sameness() == (Single { bits: DEFAULT_FACT_DEDUP }),
    {
        FactStore::with_dedup(Single { bits: DEFAULT_FACT_DEDUP })
    }

    /// An empty memory with the given deduplication threshold.
    pub fn with_dedup(theta_dedup: Single) -> (r: FactStore)
        ensures
            r@ == Seq::<FactView>::empty(),
            r.sameness() == theta_dedup,
    {
        let r = FactStore { facts: Vec::new(), theta_dedup };
        assert(r@ =~= Seq::<FactView>::empty());
        r
    }

    /// The cosine at which two facts are the same fact.
    pub fn theta_dedup(&self) -> (r: Single)
        ensures
            r == self.sameness(),
    {
        self.theta_dedup
    }

    /// Number of facts.
    pub fn len(&self) -> (r: usize)
        ensures
            r == self@.len(),
    {
        self.facts.len()
    }

    /// Whether there is no fact.
    pub fn is_empty(&self) -> (r: bool)
        ensures
            r == (self@.len() == 0),
    {
        self.facts.len() == 0
    }

    /// All facts, in the order in which they were stored.
    pub fn iter(&self) -> (r: Vec<&Fact>)
        ensures
            selection::targets(r@) == self.stored(),
            facts_of(selection::targets(r@)) == self@,
    {
        let mut out: Vec<&Fact> = Vec::new();
        let mut i: usize = 0;
        while i < self.facts.len()
            invariant
                i <= self.facts.len(),
                out.len() == i,
                forall|k: int| 0 <= k < i ==> *(#[trigger] out@[k]) == self.facts@[k],
            decreases self.facts.len() - i,
        {
            out.push(&self.facts[i]);
            i += 1;
        }
        assert(selection::targets(out@) =~= self.facts@);
        out
    }

    /// Adds a fact as it is, for instance one restored from disk. New knowledge goes through
    /// [`FactStore::remember`].
    pub fn insert(&mut self, fact: Fact)
        ensures
            final(self)@ == old(self)@.push(fact@),
            final(self).sameness() == old(self).sameness(),
    {
        let ghost before = self@;
        self.facts.push(fact);
        assert(self@ =~= before.push(fact@));
    }

    /// The live facts about a subject at `now`.
    pub fn alive_for<'a, A: Arithmetic>(
        &'a self,
        arith: &A,
        subject: &str,
        now: Tick,
        theta_fade: Double,
    ) -> (r: Vec<&'a Fact>)
        requires
            arithmetic::lawful(*arith),
        ensures
            selection::targets(r@) == self.stored().filter(
                alive_about(*arith, subject@, now, theta_fade),
            ),
            facts_of(self.stored()) == self@,
    {
        let test = |f: &Fact| -> (b: bool)
            ensures
                b == (f.subject@ == subject@ && f.trace.alive(*arith, now, theta_fade)),
            { text::same(f.subject.as_str(), subject) && f.trace.is_alive(arith, now, theta_fade) };
        selection::select(
            &self.facts,
            &test,
            Ghost(alive_about(*arith, subject@, now, theta_fade)),
        )
    }

    /// The position of the known fact that an embedding is the same as.
    fn known<A: Arithmetic>(&self, arith: &A, subject: &str, embedding: &Vector) -> (r: Option<usize>)
        requires
            arithmetic::lawful(*arith),
        ensures
            match r {
                Some(i) => i < self@.len() && known_as(
                    *arith,
                    self@,
                    subject@,
                    embedding@,
                    self.sameness(),
                ) == Some(i as int),
                None => known_as(
                    *arith,
                    self@,
                    subject@,
                    embedding@,
                    self.sameness(),
                ) is None,
            },
    {
        let ghost likeness = fact_resemblances(*arith, self@, embedding@);
        let ghost among = about(self@, subject@);
        let theta = self.theta_dedup;
        let mut best = theta;
        let mut best_i: Option<usize> = None;
        let mut i: usize = 0;
        while i < self.facts.len()
            invariant
                arithmetic::lawful(*arith),
                i <= self.facts.len(),
                theta == self.theta_dedup,
                likeness == fact_resemblances(*arith, self@, embedding@),
                among == about(self@, subject@),
                match best_i {
                    Some(k) => {
                        &&& k < i
                        &&& among(k as int)
                        &&& best == likeness[k as int]
                        &&& theta.at_most(best)
                        &&& forall|j: int|
                            0 <= j < i && among(j) ==> (#[trigger] likeness[j]).rank()
                                <= best.rank()
                        &&& forall|j: int|
                            k < j < i && among(j) ==> (#[trigger] likeness[j]).rank() < best.rank()
                    },
                    None => {
                        &&& best == theta
                        &&& forall|j: int|
                            0 <= j < i && among(j) ==> !theta.at_most(#[trigger] likeness[j])
                    },
                },
            decreases self.facts.len() - i,
        {
            assert(self@[i as int] == self.facts@[i as int]@);
            if text::same(self.facts[i].subject.as_str(), subject) {
                let c = arithmetic::cosine(arith, &self.facts[i].embedding, embedding);
                assert(likeness[i as int] == c);
                if best.le(c) {
                    proof {
                        if best_i is None {
                            assert forall|j: int| 0 <= j < i && among(j) implies (
                            #[trigger] likeness[j]).rank() < c.rank() by {
                                assert(!theta.at_most(likeness[j]));
                                arithmetic::cosine_is_number(
                                    *arith,
                                    self@[j].embedding,
                                    embedding@,
                                );
                            }
                        }
                    }
                    best = c;
                    best_i = Some(i);
                }
            }
            i += 1;
        }
        proof {
            if best_i is Some {
                let k = best_i->0 as int;
                assert(ranking::is_last_best(likeness, among, theta, k));
                ranking::last_best_unique(likeness, among, theta, k);
            }
        }
        best_i
    }

    /// Records a fact. If a fact about the same subject resembles it from the deduplication
    /// threshold upwards, the known fact is reinforced; otherwise the new one is stored, with a
    /// physics of its own.
    pub fn remember<A: Arithmetic>(
        &mut self,
        arith: &A,
        subject: &str,
        text: &str,
        embedding: Vector,
        provenance: &str,
        salience: Double,
        halflife: Double,
        now: Tick,
    ) -> (r: Remember)
        requires
            arithmetic::lawful(*arith),
            known_as(*arith, old(self)@, subject@, embedding@, old(self).sameness()) is None
                ==> Double::nought().below(halflife),
        ensures
            final(self).sameness() == old(self).sameness(),
            final(self)@ == remembered(
                *arith,
                old(self)@,
                old(self).sameness(),
                learned(
                    *arith,
                    subject@,
                    text@,
                    embedding@,
                    provenance@,
                    salience,
                    halflife,
                    now,
                ),
            ),
            r == (if known_as(
                *arith,
                old(self)@,
                subject@,
                embedding@,
                old(self).sameness(),
            ) is Some {
                Remember::Merged
            } else {
                Remember::Inserted
            }),
    {
        let ghost before = self@;
        match self.known(arith, subject, &embedding) {
            Some(i) => {
                self.facts[i].trace.reinforce(
                    arith,
                    now,
                    Double { bits: DEFAULT_FACT_CONSOLIDATION },
                );
                assert(self@ =~= before.update(
                    i as int,
                    before[i as int].revisited(*arith, now),
                ));
                Remember::Merged
            },
            None => {
                let fact = Fact {
                    subject: subject.to_owned(),
                    text: text.to_owned(),
                    embedding,
                    provenance: provenance.to_owned(),
                    created_at: now,
                    trace: EntropyTrace::new(arith, salience, halflife, now),
                };
                let ghost view = fact@;
                self.facts.push(fact);
                assert(self@ =~= before.push(view));
                Remember::Inserted
            },
        }
    }

    /// The places of the facts that score best.
    fn find<A: Arithmetic>(
        &self,
        arith: &A,
        subject: &str,
        query: &Vector,
        k: usize,
        now: Tick,
        theta_fade: Double,
    ) -> (r: Vec<usize>)
        requires
            arithmetic::lawful(*arith),
        ensures
            ranking::positions(r@) == hits(
                *arith,
                self@,
                subject@,
                query@,
                k as nat,
                now,
                theta_fade,
            ),
            r@.no_duplicates(),
            forall|j: int| 0 <= j < r.len() ==> #[trigger] r@[j] < self@.len(),
    {
        let ghost kept = unfaded_about(*arith, subject@, now, theta_fade);
        let ghost all = self@;
        let mut places: Vec<usize> = Vec::new();
        let mut scores: Vec<Double> = Vec::new();
        let mut i: usize = 0;
        proof {
            assert(all.take(0) =~= Seq::empty());
            assert(ranking::positions(places@) =~= selection::places(all.take(0), kept));
        }
        while i < self.facts.len()
            invariant
                arithmetic::lawful(*arith),
                i <= self.facts.len(),
                all == self@,
                kept == unfaded_about(*arith, subject@, now, theta_fade),
                ranking::positions(places@) == selection::places(all.take(i as int), kept),
                places.len() == scores.len(),
                forall|j: int| 0 <= j < places.len() ==> #[trigger] places@[j] < i,
                places@.no_duplicates(),
                forall|j: int|
                    0 <= j < places.len() ==> #[trigger] scores@[j] == all[places@[j] as int].score(
                        *arith,
                        query@,
                        now,
                    ),
            decreases self.facts.len() - i,
        {
            let f: &Fact = &self.facts[i];
            let ghost had = ranking::positions(places@);
            proof {
                assert(all.take(i + 1).drop_last() =~= all.take(i as int));
                assert(all.take(i + 1).last() == f@);
                assert(kept(f@) == (f@.subject == subject@ && !f@.trace.life(*arith, now).below(
                    theta_fade,
                )));
            }
            if text::same(f.subject.as_str(), subject) {
                let life = f.trace.weight(arith, now);
                if !life.lt(theta_fade) {
                    places.push(i);
                    scores.push(
                        archetype::score(
                            arith,
                            arithmetic::cosine(arith, &f.embedding, query),
                            life,
                        ),
                    );
                    assert(ranking::positions(places@) =~= had.push(i as int));
                }
            }
            i += 1;
        }
        let chosen = ranking::top(&places, &scores, k);
        proof {
            assert(all.take(i as int) =~= all);
            let at = selection::places(all, kept);
            assert(scores@ =~= scores_at(*arith, all, at, query@, now)) by {
                assert forall|j: int| 0 <= j < scores.len() implies #[trigger] scores@[j]
                    == scores_at(*arith, all, at, query@, now)[j] by {
                    assert(ranking::positions(places@)[j] == places@[j] as int);
                }
            }
            assert forall|j: int| 0 <= j < chosen.len() implies #[trigger] chosen@[j]
                < self@.len() by {
                assert(places@.contains(chosen@[j]));
            }
        }
        chosen
    }

    /// The `k` facts about a subject that score best against a query,
    /// `score = max(0, relevance) · weight(now)`. Recalling reinforces what it returns, and nothing
    /// else: a recalled fact restarts its decay, one that is never evoked fades.
    pub fn recall<A: Arithmetic>(
        &mut self,
        arith: &A,
        subject: &str,
        query: &Vector,
        k: usize,
        now: Tick,
        theta_fade: Double,
    ) -> (r: Vec<RecalledFact>)
        requires
            arithmetic::lawful(*arith),
        ensures
            final(self).sameness() == old(self).sameness(),
            ({
                let at = hits(*arith, old(self)@, subject@, query@, k as nat, now, theta_fade);
                &&& recalls_of(r@) == recalled_at(*arith, old(self)@, at, query@, now)
                &&& final(self)@ == revisited_at(*arith, old(self)@, at, now)
            }),
    {
        let ghost before = self@;
        let chosen = self.find(arith, subject, query, k, now, theta_fade);
        let ghost at = ranking::positions(chosen@);
        let mut out: Vec<RecalledFact> = Vec::new();
        let mut j: usize = 0;
        proof {
            assert(self@ =~= revisited_at(*arith, before, at.take(0), now));
        }
        while j < chosen.len()
            invariant
                arithmetic::lawful(*arith),
                j <= chosen.len(),
                at == ranking::positions(chosen@),
                chosen@.no_duplicates(),
                forall|n: int| 0 <= n < chosen.len() ==> #[trigger] chosen@[n] < before.len(),
                self.theta_dedup == old(self).theta_dedup,
                self@ == revisited_at(*arith, before, at.take(j as int), now),
                out.len() == j,
                forall|n: int|
                    0 <= n < j ==> (#[trigger] out@[n])@ == recalled_at(
                        *arith,
                        before,
                        at,
                        query@,
                        now,
                    )[n],
            decreases chosen.len() - j,
        {
            let i: usize = chosen[j];
            let ghost had = self@;
            proof {
                assert(!at.take(j as int).contains(i as int)) by {
                    if at.take(j as int).contains(i as int) {
                        let n = choose|n: int|
                            0 <= n < at.take(j as int).len() && at.take(j as int)[n] == i as int;
                        assert(chosen@[n] == chosen@[j as int]);
                    }
                }
                assert(had[i as int] == before[i as int]);
                assert(had.len() == self.facts.len());
                assert(chosen@[j as int] < before.len());
            }
            let f: &Fact = &self.facts[i];
            assert(f@ == had[i as int]);
            let life = f.trace.weight(arith, now);
            let rank = archetype::score(
                arith,
                arithmetic::cosine(arith, &f.embedding, query),
                life,
            );
            out.push(
                RecalledFact {
                    text: f.text.clone(),
                    provenance: f.provenance.clone(),
                    score: rank,
                },
            );
            self.facts[i].trace.reinforce(arith, now, Double { bits: DEFAULT_FACT_CONSOLIDATION });
            proof {
                assert(self@ =~= had.update(i as int, before[i as int].revisited(*arith, now)));
                assert(at.take(j + 1) =~= at.take(j as int).push(i as int));
                assert(self@ =~= revisited_at(*arith, before, at.take(j + 1), now)) by {
                    assert forall|n: int| 0 <= n < before.len() implies #[trigger] self@[n]
                        == revisited_at(*arith, before, at.take(j + 1), now)[n] by {
                        let prior = at.take(j as int);
                        let next = at.take(j + 1);
                        assert(next[j as int] == i as int);
                        if n != i {
                            if next.contains(n) {
                                let q = choose|q: int| 0 <= q < next.len() && next[q] == n;
                                assert(prior[q] == n);
                            }
                            if prior.contains(n) {
                                let q = choose|q: int| 0 <= q < prior.len() && prior[q] == n;
                                assert(next[q] == n);
                            }
                        }
                    }
                }
            }
            j += 1;
        }
        proof {
            assert(at.take(j as int) =~= at);
            assert(recalls_of(out@) =~= recalled_at(*arith, before, at, query@, now));
        }
        out
    }

    /// The facts that [`FactStore::recall`] would return, without reinforcing them.
    pub fn search<'a, A: Arithmetic>(
        &'a self,
        arith: &A,
        subject: &str,
        query: &Vector,
        k: usize,
        now: Tick,
        theta_fade: Double,
    ) -> (r: Vec<(Double, &'a Fact)>)
        requires
            arithmetic::lawful(*arith),
        ensures
            ({
                let at = hits(*arith, self@, subject@, query@, k as nat, now, theta_fade);
                &&& r.len() == at.len()
                &&& forall|j: int|
                    0 <= j < r.len() ==> (#[trigger] r@[j]).1@ == self@[at[j]] && r@[j].0
                        == self@[at[j]].score(*arith, query@, now)
            }),
    {
        let chosen = self.find(arith, subject, query, k, now, theta_fade);
        let ghost at = ranking::positions(chosen@);
        let mut out: Vec<(Double, &Fact)> = Vec::new();
        let mut j: usize = 0;
        while j < chosen.len()
            invariant
                arithmetic::lawful(*arith),
                j <= chosen.len(),
                at == ranking::positions(chosen@),
                forall|n: int| 0 <= n < chosen.len() ==> #[trigger] chosen@[n] < self@.len(),
                out.len() == j,
                forall|n: int|
                    0 <= n < j ==> (#[trigger] out@[n]).1@ == self@[at[n]] && out@[n].0
                        == self@[at[n]].score(*arith, query@, now),
            decreases chosen.len() - j,
        {
            let f: &Fact = &self.facts[chosen[j]];
            let life = f.trace.weight(arith, now);
            let rank = archetype::score(
                arith,
                arithmetic::cosine(arith, &f.embedding, query),
                life,
            );
            out.push((rank, f));
            j += 1;
        }
        out
    }

    /// `FADE` of the episodic layer: removes the facts below the threshold; returns how many faded.
    pub fn fade<A: Arithmetic>(&mut self, arith: &A, now: Tick, theta_fade: Double) -> (r: usize)
        requires
            arithmetic::lawful(*arith),
        ensures
            final(self)@ == old(self)@.filter(alive_at(*arith, now, theta_fade)),
            r == old(self)@.len() - final(self)@.len(),
            final(self).sameness() == old(self).sameness(),
    {
        let ghost before = self.facts@;
        let ghost kept = |f: Fact| f.trace.alive(*arith, now, theta_fade);
        let test = |f: &Fact| -> (b: bool)
            ensures
                b == f.trace.alive(*arith, now, theta_fade),
            { f.trace.is_alive(arith, now, theta_fade) };
        let swept = selection::retain(&mut self.facts, &test, Ghost(selection::verdict(kept)));
        proof {
            selection::sifting_by_a_predicate(
                before,
                selection::verdict(kept),
                kept,
                self.facts@,
            );
            filter_commutes(before, kept, alive_at(*arith, now, theta_fade));
        }
        swept
    }
}

/// Filtering facts is filtering what they hold.
proof fn filter_commutes(
    s: Seq<Fact>,
    kept: spec_fn(Fact) -> bool,
    seen: spec_fn(FactView) -> bool,
)
    requires
        forall|f: Fact| #[trigger] kept(f) == seen(f@),
    ensures
        facts_of(s.filter(kept)) == facts_of(s).filter(seen),
    decreases s.len(),
{
    reveal(Seq::filter);
    if s.len() > 0 {
        filter_commutes(s.drop_last(), kept, seen);
        assert(facts_of(s).drop_last() =~= facts_of(s.drop_last()));
        assert(kept(s.last()) == seen(s.last()@));
        assert(facts_of(s.filter(kept)) =~= facts_of(s).filter(seen));
    } else {
        assert(facts_of(s.filter(kept)) =~= facts_of(s).filter(seen));
    }
}

/// Facts of one subject do not leak to another: whatever a query finds is about the subject it asks
/// for and has not faded, no fact is found twice, and at most `k` are.
pub proof fn hits_are_about_the_subject<A: Arithmetic>(
    arith: A,
    s: Seq<FactView>,
    subject: Seq<char>,
    query: Seq<Single>,
    k: nat,
    now: Tick,
    theta: Double,
)
    ensures
        ({
            let at = hits(arith, s, subject, query, k, now, theta);
            &&& at.len() <= k
            &&& at.no_duplicates()
            &&& forall|j: int|
                0 <= j < at.len() ==> 0 <= #[trigger] at[j] < s.len() && s[at[j]].subject == subject
                    && !s[at[j]].trace.life(arith, now).below(theta)
        }),
{
    let kept = unfaded_about(arith, subject, now, theta);
    let places = selection::places(s, kept);
    selection::places_are_exact(s, kept);
    assert(places.no_duplicates()) by {
        assert forall|a: int, b: int|
            0 <= a < places.len() && 0 <= b < places.len() && a != b implies places[a]
            != places[b] by {
            if a < b {
                assert(places[a] < places[b]);
            } else {
                assert(places[b] < places[a]);
            }
        }
    }
    ranking::top_places_are_places(places, scores_at(arith, s, places, query, now), k);
    let at = hits(arith, s, subject, query, k, now, theta);
    assert forall|j: int| 0 <= j < at.len() implies 0 <= #[trigger] at[j] < s.len()
        && s[at[j]].subject == subject && !s[at[j]].trace.life(arith, now).below(theta) by {
        let i = choose|i: int| 0 <= i < places.len() && places[i] == at[j];
        assert(kept(s[places[i]]));
    }
}

/// The best facts come first, and no unfaded fact about the subject that was left out scores higher
/// than one that was found; where fewer than `k` were found, none was left out.
pub proof fn hits_score_best<A: Arithmetic>(
    arith: A,
    s: Seq<FactView>,
    subject: Seq<char>,
    query: Seq<Single>,
    k: nat,
    now: Tick,
    theta: Double,
)
    ensures
        ({
            let at = hits(arith, s, subject, query, k, now, theta);
            &&& forall|i: int, j: int|
                0 <= i < j < at.len() ==> s[#[trigger] at[i]].score(arith, query, now).key()
                    >= s[#[trigger] at[j]].score(arith, query, now).key()
            &&& forall|n: int, j: int|
                0 <= n < s.len() && (#[trigger] s[n]).subject == subject && !s[n].trace.life(
                    arith,
                    now,
                ).below(theta) && !at.contains(n) && 0 <= j < at.len() ==> s[n].score(
                    arith,
                    query,
                    now,
                ).key() <= s[#[trigger] at[j]].score(arith, query, now).key()
            &&& at.len() < k ==> forall|n: int|
                0 <= n < s.len() && (#[trigger] s[n]).subject == subject && !s[n].trace.life(
                    arith,
                    now,
                ).below(theta) ==> at.contains(n)
        }),
{
    let kept = unfaded_about(arith, subject, now, theta);
    let places = selection::places(s, kept);
    let scores = scores_at(arith, s, places, query, now);
    let at = hits(arith, s, subject, query, k, now, theta);
    let best = ranking::best_first(scores);
    selection::places_are_exact(s, kept);
    ranking::best_first_exists(scores);
    assert forall|j: int| 0 <= j < at.len() implies s[#[trigger] at[j]].score(arith, query, now)
        == scores[best[j]] by {
        assert(ranking::below(scores.len() as int)(best[j]));
    }
    assert forall|i: int, j: int| 0 <= i < j < at.len() implies s[#[trigger] at[i]].score(
        arith,
        query,
        now,
    ).key() >= s[#[trigger] at[j]].score(arith, query, now).key() by {
        ranking::best_first_descends(scores, best, i, j);
    }
    assert forall|n: int|
        0 <= n < s.len() && (#[trigger] s[n]).subject == subject && !s[n].trace.life(
            arith,
            now,
        ).below(theta) && !at.contains(n) implies exists|q: int|
        at.len() <= q < best.len() && places[#[trigger] best[q]] == n by {
        assert(kept(s[n]));
        let p = choose|p: int| 0 <= p < places.len() && places[p] == n;
        assert(ranking::below(scores.len() as int)(p));
        let q = choose|q: int| 0 <= q < best.len() && best[q] == p;
        if q < at.len() {
            assert(at[q] == n);
        }
        assert(places[best[q]] == n);
    }
    assert forall|n: int, j: int|
        0 <= n < s.len() && (#[trigger] s[n]).subject == subject && !s[n].trace.life(
            arith,
            now,
        ).below(theta) && !at.contains(n) && 0 <= j < at.len() implies s[n].score(
        arith,
        query,
        now,
    ).key() <= s[#[trigger] at[j]].score(arith, query, now).key() by {
        let q = choose|q: int| at.len() <= q < best.len() && places[#[trigger] best[q]] == n;
        assert(ranking::below(scores.len() as int)(best[q]));
        ranking::best_first_descends(scores, best, j, q);
    }
}

/// Recalling is verbatim and touches nothing else: each recalled text is that of a stored fact, no
/// fact changes but in its physics, and a fact that was not recalled does not change at all.
pub proof fn recalling_is_verbatim<A: Arithmetic>(
    arith: A,
    s: Seq<FactView>,
    subject: Seq<char>,
    query: Seq<Single>,
    k: nat,
    now: Tick,
    theta: Double,
)
    ensures
        ({
            let at = hits(arith, s, subject, query, k, now, theta);
            let given = recalled_at(arith, s, at, query, now);
            let t = revisited_at(arith, s, at, now);
            &&& given.len() == at.len()
            &&& forall|j: int|
                0 <= j < given.len() ==> (#[trigger] given[j]).text == s[at[j]].text
                    && given[j].provenance == s[at[j]].provenance && s[at[j]].subject == subject
                    && t[at[j]].trace.last_touch == now
            &&& t.len() == s.len()
            &&& forall|i: int|
                0 <= i < s.len() ==> (#[trigger] t[i]).text == s[i].text && t[i].subject
                    == s[i].subject && t[i].embedding == s[i].embedding && t[i].provenance
                    == s[i].provenance && t[i].created_at == s[i].created_at
            &&& forall|i: int|
                0 <= i < s.len() && s[i].subject != subject ==> #[trigger] t[i] == s[i]
        }),
{
    hits_are_about_the_subject(arith, s, subject, query, k, now, theta);
    let at = hits(arith, s, subject, query, k, now, theta);
    let given = recalled_at(arith, s, at, query, now);
    let t = revisited_at(arith, s, at, now);
    assert forall|j: int| 0 <= j < given.len() implies (#[trigger] given[j]).text == s[at[j]].text
        && given[j].provenance == s[at[j]].provenance && s[at[j]].subject == subject
        && t[at[j]].trace.last_touch == now by {
        assert(at.contains(at[j]));
    }
    assert forall|i: int| 0 <= i < s.len() && s[i].subject != subject implies #[trigger] t[i]
        == s[i] by {
        if at.contains(i) {
            let j = choose|j: int| 0 <= j < at.len() && at[j] == i;
            assert(s[at[j]].subject == subject);
        }
    }
}

/// Repetition consolidates, it does not inflate: a fact that was just stored is known from then on,
/// wherever its embedding resembles itself from the threshold upwards.
pub proof fn stored_facts_are_known<A: Arithmetic>(
    arith: A,
    s: Seq<FactView>,
    fact: FactView,
    theta: Single,
)
    requires
        theta.at_most(arithmetic::similarity(arith, fact.embedding, fact.embedding)),
    ensures
        known_as(arith, s.push(fact), fact.subject, fact.embedding, theta) is Some,
{
    let t = s.push(fact);
    let likeness = fact_resemblances(arith, t, fact.embedding);
    let n = s.len() as int;
    assert(about(t, fact.subject)(n));
    assert(likeness[n] == arithmetic::similarity(arith, fact.embedding, fact.embedding));
}

/// Deduplication is isolated per subject: the fact that another is the same as is about the same
/// subject and resembles it from the threshold upwards.
pub proof fn known_facts_are_about_the_subject<A: Arithmetic>(
    arith: A,
    s: Seq<FactView>,
    subject: Seq<char>,
    x: Seq<Single>,
    theta: Single,
)
    requires
        arithmetic::lawful(arith),
        known_as(arith, s, subject, x, theta) is Some,
    ensures
        ({
            let i = known_as(arith, s, subject, x, theta)->0;
            &&& 0 <= i < s.len()
            &&& s[i].subject == subject
            &&& theta.at_most(arithmetic::similarity(arith, s[i].embedding, x))
        }),
{
    let likeness = fact_resemblances(arith, s, x);
    assert forall|j: int| 0 <= j < likeness.len() implies !(#[trigger] likeness[j]).is_nan() by {
        arithmetic::cosine_is_number(arith, s[j].embedding, x);
    }
    ranking::last_best_exists(likeness, about(s, subject), theta);
}

/// The score that a recalled fact carries is its relevance, never negative, times what it weighs at the
/// time: each operation asked of the arithmetic.
pub proof fn recalled_scores_are_relevance_times_weight<A: Arithmetic>(
    arith: A,
    s: Seq<FactView>,
    subject: Seq<char>,
    query: Seq<Single>,
    k: nat,
    now: Tick,
    theta: Double,
    j: int,
    cosine: Single,
    wide: Double,
    w: Double,
    p: Double,
)
    requires
        arithmetic::lawful(arith),
        0 <= j < hits(arith, s, subject, query, k, now, theta).len(),
        ({
            let f = s[hits(arith, s, subject, query, k, now, theta)[j]];
            &&& arithmetic::resembles(arith, f.embedding, query, cosine)
            &&& f.trace.weighed(arith, now, w)
        }),
        call_ensures(
            A::widen,
            (
                &arith,
                (if cosine.is_nan() || cosine.below(Single::nought()) {
                    Single::nought()
                } else {
                    cosine
                }),
            ),
            wide,
        ),
        call_ensures(A::mul64, (&arith, wide, w), p),
    ensures
        ({
            let at = hits(arith, s, subject, query, k, now, theta);
            &&& recalled_at(arith, s, at, query, now)[j].score == p
            &&& s[at[j]].score(arith, query, now) == p
        }),
{
    let f = s[hits(arith, s, subject, query, k, now, theta)[j]];
    reveal(arithmetic::lawful);
    assert(arithmetic::similarity(arith, f.embedding, query) == cosine);
    crate::entropy::life_is_the_weight(arith, f.trace, now, w);
    archetype::scores_are_put_together(arith, cosine, w, wide, p);
}

/// Forgetting counts in the ranking: of two facts that resemble a query equally, the one that weighs
/// less scores no higher, and a fact that resembles it wholly scores what it weighs.
pub proof fn heavier_facts_score_no_lower<A: Arithmetic>(
    arith: A,
    light: FactView,
    heavy: FactView,
    query: Seq<Single>,
    now: Tick,
)
    requires
        arithmetic::orderly(arith),
        arithmetic::similarity(arith, light.embedding, query) == arithmetic::similarity(
            arith,
            heavy.embedding,
            query,
        ),
        Double::nought().at_most(light.trace.life(arith, now)),
        light.trace.life(arith, now).at_most(heavy.trace.life(arith, now)),
        heavy.trace.life(arith, now).finite(),
    ensures
        light.score(arith, query, now).at_most(heavy.score(arith, query, now)),
        arithmetic::similarity(arith, heavy.embedding, query).bits == 0x3f80_0000 ==> heavy.score(
            arith,
            query,
            now,
        ) == heavy.trace.life(arith, now) && light.score(arith, query, now) == light.trace.life(
            arith,
            now,
        ),
{
    let c = arithmetic::similarity(arith, light.embedding, query);
    assert(c.finite());
    archetype::scores_grow_with_life(
        arith,
        c,
        light.trace.life(arith, now),
        heavy.trace.life(arith, now),
    );
    archetype::scores_grow_with_life(
        arith,
        c,
        light.trace.life(arith, now),
        light.trace.life(arith, now),
    );
}

/// Relevance counts in the ranking: of two facts that weigh the same, the one that resembles a query
/// less scores no higher, and one that does not resemble it at all scores nothing.
pub proof fn relevant_facts_score_no_lower<A: Arithmetic>(
    arith: A,
    less: FactView,
    more: FactView,
    query: Seq<Single>,
    now: Tick,
)
    requires
        arithmetic::orderly(arith),
        arithmetic::similarity(arith, less.embedding, query).at_most(
            arithmetic::similarity(arith, more.embedding, query),
        ),
        less.trace.life(arith, now) == more.trace.life(arith, now),
        Double::nought().at_most(more.trace.life(arith, now)),
        more.trace.life(arith, now).finite(),
    ensures
        less.score(arith, query, now).at_most(more.score(arith, query, now)),
        arithmetic::similarity(arith, less.embedding, query).at_most(Single::nought())
            ==> less.score(arith, query, now).same(Double::nought()),
{
    let c = arithmetic::similarity(arith, more.embedding, query);
    assert(c.finite());
    archetype::scores_grow_with_relevance(
        arith,
        arithmetic::similarity(arith, less.embedding, query),
        c,
        more.trace.life(arith, now),
    );
}

/// What weighs more comes first: of two unfaded facts about the subject that both resemble the query
/// wholly, the heavier is recalled wherever the lighter is, and before it.
pub proof fn heavier_facts_come_first<A: Arithmetic>(
    arith: A,
    s: Seq<FactView>,
    subject: Seq<char>,
    query: Seq<Single>,
    k: nat,
    now: Tick,
    theta: Double,
    light: int,
    heavy: int,
)
    requires
        arithmetic::orderly(arith),
        0 <= light < s.len(),
        0 <= heavy < s.len(),
        s[heavy].subject == subject,
        !s[heavy].trace.life(arith, now).below(theta),
        arithmetic::similarity(arith, s[light].embedding, query).bits == 0x3f80_0000,
        arithmetic::similarity(arith, s[heavy].embedding, query).bits == 0x3f80_0000,
        Double::nought().at_most(s[light].trace.life(arith, now)),
        s[light].trace.life(arith, now).below(s[heavy].trace.life(arith, now)),
        s[heavy].trace.life(arith, now).finite(),
        hits(arith, s, subject, query, k, now, theta).contains(light),
    ensures
        ({
            let at = hits(arith, s, subject, query, k, now, theta);
            exists|a: int, b: int|
                0 <= a < b < at.len() && #[trigger] at[a] == heavy && #[trigger] at[b] == light
        }),
{
    let at = hits(arith, s, subject, query, k, now, theta);
    heavier_facts_score_no_lower(arith, s[light], s[heavy], query, now);
    hits_score_best(arith, s, subject, query, k, now, theta);
    let b = choose|b: int| 0 <= b < at.len() && at[b] == light;
    if !at.contains(heavy) {
        assert(s[heavy].score(arith, query, now).key() <= s[at[b]].score(arith, query, now).key());
    }
    let a = choose|a: int| 0 <= a < at.len() && at[a] == heavy;
    if b < a {
        assert(s[at[b]].score(arith, query, now).key() >= s[at[a]].score(arith, query, now).key());
    }
    assert(a != b);
}

/// To recall a fact is to touch it: its clock starts again, its decay rate loses a tenth but stays at
/// the floor or above, its reinforcement does not shrink. A fact that is not recalled stays as it is.
pub proof fn recalling_touches_what_it_returns<A: Arithmetic>(
    arith: A,
    s: Seq<FactView>,
    at: Seq<int>,
    now: Tick,
    i: int,
)
    requires
        arithmetic::lawful(arith),
        0 <= i < s.len(),
    ensures
        ({
            let t = revisited_at(arith, s, at, now);
            &&& t.len() == s.len()
            &&& !at.contains(i) ==> t[i] == s[i]
            &&& at.contains(i) ==> {
                &&& t[i].subject == s[i].subject
                &&& t[i].text == s[i].text
                &&& t[i].embedding == s[i].embedding
                &&& t[i].provenance == s[i].provenance
                &&& t[i].created_at == s[i].created_at
                &&& t[i].trace == s[i].trace.touched(
                    arith,
                    now,
                    Double { bits: 0x3fb9_9999_9999_999a },
                )
                &&& t[i].trace.last_touch == now
                &&& t[i].trace.lambda.at_most(
                    s[i].trace.lambda.larger(Double { bits: crate::entropy::LAMBDA_FLOOR }),
                )
                &&& Double::nought().at_most(s[i].trace.reinforcement)
                    ==> s[i].trace.reinforcement.at_most(t[i].trace.reinforcement)
            }
        }),
{
    let c = Double { bits: DEFAULT_FACT_CONSOLIDATION };
    crate::entropy::touching_never_raises_the_rate(arith, s[i].trace, now, c);
    if Double::nought().at_most(s[i].trace.reinforcement) {
        crate::entropy::no_touch_gains_more_than_the_first(arith, s[i].trace, now, c);
    }
}

/// A fact is known if a fact about the same subject resembles it from the threshold upwards. Then the
/// one that resembles it most, of equals the last, is touched, and nothing is stored; otherwise it is
/// stored behind the others, which stay as they are.
pub proof fn repetition_reinforces<A: Arithmetic>(
    arith: A,
    s: Seq<FactView>,
    theta: Single,
    fact: FactView,
)
    requires
        arithmetic::lawful(arith),
    ensures
        ({
            let t = remembered(arith, s, theta, fact);
            let known = exists|j: int|
                0 <= j < s.len() && (#[trigger] s[j]).subject == fact.subject && theta.at_most(
                    arithmetic::similarity(arith, s[j].embedding, fact.embedding),
                );
            &&& known == known_as(arith, s, fact.subject, fact.embedding, theta) is Some
            &&& if known {
                exists|i: int|
                    {
                        let best = arithmetic::similarity(arith, s[i].embedding, fact.embedding);
                        &&& 0 <= i < s.len()
                        &&& s[i].subject == fact.subject
                        &&& theta.at_most(best)
                        &&& forall|j: int|
                            0 <= j < s.len() && (#[trigger] s[j]).subject == fact.subject
                                ==> arithmetic::similarity(
                                arith,
                                s[j].embedding,
                                fact.embedding,
                            ).at_most(best)
                        &&& forall|j: int|
                            i < j < s.len() && (#[trigger] s[j]).subject == fact.subject
                                ==> arithmetic::similarity(
                                arith,
                                s[j].embedding,
                                fact.embedding,
                            ).below(best)
                        &&& t.len() == s.len()
                        &&& forall|j: int| 0 <= j < s.len() && j != i ==> #[trigger] t[j] == s[j]
                        &&& #[trigger] t[i] == (FactView {
                            trace: s[i].trace.touched(
                                arith,
                                fact.created_at,
                                Double { bits: 0x3fb9_9999_9999_999a },
                            ),
                            ..s[i]
                        })
                    }
            } else {
                &&& t.len() == s.len() + 1
                &&& forall|j: int| 0 <= j < s.len() ==> #[trigger] t[j] == s[j]
                &&& t.last() == fact
            }
        }),
{
    let t = remembered(arith, s, theta, fact);
    let x = fact.embedding;
    let likeness = fact_resemblances(arith, s, x);
    let among = about(s, fact.subject);
    assert forall|j: int| 0 <= j < likeness.len() implies !(#[trigger] likeness[j]).is_nan() by {
        arithmetic::cosine_is_number(arith, s[j].embedding, x);
    }
    if exists|j: int|
        0 <= j < s.len() && (#[trigger] s[j]).subject == fact.subject && theta.at_most(
            arithmetic::similarity(arith, s[j].embedding, x),
        ) {
        let j = choose|j: int|
            0 <= j < s.len() && (#[trigger] s[j]).subject == fact.subject && theta.at_most(
                arithmetic::similarity(arith, s[j].embedding, x),
            );
        assert(among(j) && theta.at_most(likeness[j]));
        ranking::last_best_exists(likeness, among, theta);
        let i = known_as(arith, s, fact.subject, x, theta)->0;
        let best = arithmetic::similarity(arith, s[i].embedding, x);
        assert(likeness[i] == best);
        assert forall|j: int|
            0 <= j < s.len() && (#[trigger] s[j]).subject == fact.subject implies arithmetic::similarity(
            arith,
            s[j].embedding,
            x,
        ).at_most(best) by {
            assert(among(j) && likeness[j].rank() <= likeness[i].rank());
        }
        assert forall|j: int|
            i < j < s.len() && (#[trigger] s[j]).subject == fact.subject implies arithmetic::similarity(
            arith,
            s[j].embedding,
            x,
        ).below(best) by {
            assert(among(j) && likeness[j].rank() < likeness[i].rank());
        }
        assert(t[i] == s[i].revisited(arith, fact.created_at));
    } else {
        assert forall|j: int| 0 <= j < likeness.len() && among(j) implies !theta.at_most(
            #[trigger] likeness[j],
        ) by {
            assert(s[j].subject == fact.subject);
        }
        assert(ranking::none_reaches(likeness, among, theta));
    }
}

/// A fact is learned as it is told, and begins to fade at once: its clock starts now, with no
/// reinforcement and the decay rate of its half-life.
pub proof fn facts_are_learned_as_told<A: Arithmetic>(
    arith: A,
    subject: Seq<char>,
    text: Seq<char>,
    embedding: Seq<Single>,
    provenance: Seq<char>,
    salience: Double,
    halflife: Double,
    now: Tick,
    rate: Double,
)
    requires
        arithmetic::lawful(arith),
        call_ensures(A::div64, (&arith, Double { bits: crate::entropy::LN2 }, halflife), rate),
    ensures
        ({
            let f = learned(
                arith,
                subject,
                text,
                embedding,
                provenance,
                salience,
                halflife,
                now,
            );
            &&& f.subject == subject
            &&& f.text == text
            &&& f.embedding == embedding
            &&& f.provenance == provenance
            &&& f.created_at == now
            &&& f.trace.salience == salience
            &&& f.trace.lambda == rate
            &&& f.trace.reinforcement.bits == 0
            &&& f.trace.last_touch == now
        }),
{
    reveal(arithmetic::lawful);
}

/// A sweep of the facts takes exactly those below the threshold, and a second sweep at the same tick
/// takes nothing; the live facts about a subject are those of it that a sweep would leave.
pub proof fn fading_takes_exactly_the_faded<A: Arithmetic>(
    arith: A,
    s: Seq<FactView>,
    stored: Seq<Fact>,
    subject: Seq<char>,
    now: Tick,
    theta: Double,
)
    ensures
        ({
            let t = s.filter(alive_at(arith, now, theta));
            &&& forall|f: FactView| #[trigger]
                t.contains(f) <==> s.contains(f) && theta.at_most(f.trace.life(arith, now))
            &&& t.filter(alive_at(arith, now, theta)) == t
        }),
        forall|f: Fact| #[trigger]
            stored.filter(alive_about(arith, subject, now, theta)).contains(f) <==> stored.contains(f)
                && f.subject@ == subject && theta.at_most(f.trace.life(arith, now)),
{
    let kept = alive_at(arith, now, theta);
    let t = s.filter(kept);
    assert forall|f: FactView| #[trigger] t.contains(f) <==> s.contains(f) && theta.at_most(
        f.trace.life(arith, now),
    ) by {
        selection::filter_members(s, kept, f);
    }
    assert forall|i: int| 0 <= i < t.len() implies kept(#[trigger] t[i]) by {
        assert(t.contains(t[i]));
    }
    selection::filter_settles(t, kept);
    assert forall|f: Fact| #[trigger]
        stored.filter(alive_about(arith, subject, now, theta)).contains(f) <==> stored.contains(f)
            && f.subject@ == subject && theta.at_most(f.trace.life(arith, now)) by {
        selection::filter_members(stored, alive_about(arith, subject, now, theta), f);
    }
}

/// What a fact, or a recalled one, holds is what its fields hold.
pub proof fn facts_hold_their_fields(f: Fact, r: RecalledFact)
    ensures
        f@.subject == f.subject@,
        f@.text == f.text@,
        f@.embedding == f.embedding@,
        f@.provenance == f.provenance@,
        f@.created_at == f.created_at,
        f@.trace == f.trace,
        r@.text == r.text@,
        r@.provenance == r.provenance@,
        r@.score == r.score,
{
}

} // verus!
