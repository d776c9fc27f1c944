//! Perception layer: volatile short-term memory.
//!
//! A perception is a raw stimulus just assimilated (`PERCEIVE`). It is born decaying: what nothing
//! reinforces falls below the forgetting threshold and is swept away (`FADE`).

use crate::arithmetic;
use crate::arithmetic::Arithmetic;
use crate::entropy::EntropyTrace;
use crate::entropy::Tick;
use crate::number;
use crate::number::Double;
use crate::number::Single;
use crate::number::Vector;
use crate::selection;
use crate::text;
use crate::traits;
use crate::traits::Traits;
use vstd::prelude::*;

verus! {

/// A perceived stimulus.
#[derive(Debug)]
pub struct Perception {
    /// Whom the stimulus is about.
    pub subject: String,
    /// Semantic embedding of the stimulus.
    pub embedding: Vector,
    /// Raw traits of the stimulus; no fixed schema.
    pub traits: Traits,
    /// Forgetting physics of the stimulus.
    pub trace: EntropyTrace,
}

/// What a perception holds.
#[verifier::ext_equal]
pub struct PerceptionView {
    pub subject: Seq<char>,
    pub embedding: Seq<Single>,
    pub traits: Map<Seq<char>, Seq<char>>,
    pub trace: EntropyTrace,
}

impl PerceptionView {
    /// The values of the traits in the order of their names, with a space between each two.
    pub open spec fn label(self) -> Seq<char> {
        text::joined(traits::values_by_name(self.traits), " "@)
    }
}

impl View for Perception {
    type V = PerceptionView;

    open spec fn view(&self) -> PerceptionView {
        PerceptionView {
            subject: self.subject@,
            embedding: self.embedding@,
            traits: self.traits@,
            trace: self.trace,
        }
    }
}

/// What each perception of a list holds.
pub open spec fn views_of(s: Seq<Perception>) -> Seq<PerceptionView> {
    Seq::new(s.len(), |i: int| s[i]@)
}

/// The labels of perceptions.
pub open spec fn labels_of(s: Seq<PerceptionView>) -> Seq<Seq<char>> {
    Seq::new(s.len(), |i: int| s[i].label())
}

/// The embeddings of perceptions.
pub open spec fn embeddings_of(s: Seq<PerceptionView>) -> Seq<Seq<Single>> {
    Seq::new(s.len(), |i: int| s[i].embedding)
}

impl Perception {
    /// A stimulus perceived at `now`, without traits.
    pub fn new<A: Arithmetic>(
        arith: &A,
        subject: &str,
        embedding: Vector,
        salience: Double,
        halflife: Double,
        now: Tick,
    ) -> (r: Perception)
        requires
            arithmetic::lawful(*arith),
            Double::nought().below(halflife),
        ensures
            r@ == (PerceptionView {
                subject: subject@,
                embedding: embedding@,
                traits: Map::empty(),
                trace: EntropyTrace::fresh(*arith, salience, halflife, now),
            }),
    {
        Perception {
            subject: subject.to_owned(),
            embedding,
            traits: Traits::new(),
            trace: EntropyTrace::new(arith, salience, halflife, now),
        }
    }

    /// The stimulus with one more trait.
    pub fn with_trait(self, key: &str, value: &str) -> (r: Perception)
        ensures
            r@ == (PerceptionView { traits: self@.traits.insert(key@, value@), ..self@ }),
    {
        let mut p = self;
        p.traits.insert(key, value);
        p
    }

    /// Weight of the stimulus at `now`.
    pub fn weight<A: Arithmetic>(&self, arith: &A, now: Tick) -> (r: Double)
        requires
            arithmetic::lawful(*arith),
        ensures
            r == self.trace.life(*arith, now),
    {
        self.trace.weight(arith, now)
    }

    /// Representative text of the stimulus: the values of its traits, in the order of their names.
    /// `{act: purchase, object: shoes}` reads "purchase shoes".
    pub fn representative_text(&self) -> (r: String)
        ensures
            r@ == self@.label(),
    {
        self.traits.values_text()
    }
}

impl Clone for Perception {
    fn clone(&self) -> (r: Perception)
        ensures
            r@ == self@,
    {
        Perception {
            subject: self.subject.clone(),
            embedding: number::copy_vector(&self.embedding),
            traits: self.traits.clone(),
            trace: self.trace,
        }
    }
}

/// The perceptions of a subject that are at or above the forgetting threshold.
pub open spec fn alive_of<A: Arithmetic>(
    arith: A,
    subject: Seq<char>,
    now: Tick,
    theta: Double,
) -> spec_fn(Perception) -> bool {
    |p: Perception| p.subject@ == subject && p.trace.alive(arith, now, theta)
}

/// The perceptions of a subject that are at or above the forgetting threshold and pass a test.
pub open spec fn alive_where<A: Arithmetic>(
    arith: A,
    subject: Seq<char>,
    now: Tick,
    theta: Double,
    kept: spec_fn(Perception) -> bool,
) -> spec_fn(Perception) -> bool {
    |p: Perception| p.subject@ == subject && p.trace.alive(arith, now, theta) && kept(p)
}

/// The perceptions that are at or above the forgetting threshold.
pub open spec fn alive_at<A: Arithmetic>(arith: A, now: Tick, theta: Double) -> spec_fn(
    Perception,
) -> bool {
    |p: Perception| p.trace.alive(arith, now, theta)
}

/// The perceptions that fail a test.
pub open spec fn failing(test: spec_fn(Perception) -> bool) -> spec_fn(Perception) -> bool {
    |p: Perception| !test(p)
}

/// The short-term sensory memory: perceptions that no sweep has taken yet.
#[derive(Debug)]
pub struct PerceptionBuffer {
    perceptions: Vec<Perception>,
}

impl View for PerceptionBuffer {
    type V = Seq<Perception>;

    closed spec fn view(&self) -> Seq<Perception> {
        self.perceptions@
    }
}

impl Default for PerceptionBuffer {
    fn default() -> (r: PerceptionBuffer)
        ensures
            r@ == Seq::<Perception>::empty(),
    {
        PerceptionBuffer::new()
    }
}

impl PerceptionBuffer {
    /// An empty memory.
    pub fn new() -> (r: PerceptionBuffer)
        ensures
            r@ == Seq::<Perception>::empty(),
    {
        PerceptionBuffer { perceptions: Vec::new() }
    }

    /// `PERCEIVE`: assimilates a stimulus.
    pub fn perceive(&mut self, p: Perception)
        ensures
            final(self)@ == old(self)@.push(p),
    {
        self.perceptions.push(p);
    }

    /// Number of perceptions.
    pub fn len(&self) -> (r: usize)
        ensures
            r == self@.len(),
    {
        self.perceptions.len()
    }

    /// Whether there is no perception.
    pub fn is_empty(&self) -> (r: bool)
        ensures
            r == (self@.len() == 0),
    {
        self.perceptions.len() == 0
    }

    /// The live perceptions of a subject at `now`.
    pub fn alive_for<'a, A: Arithmetic>(
        &'a self,
        arith: &A,
        subject: &str,
        now: Tick,
        theta_fade: Double,
    ) -> (r: Vec<&'a Perception>)
        requires
            arithmetic::lawful(*arith),
        ensures
            selection::targets(r@) == self@.filter(alive_of(*arith, subject@, now, theta_fade)),
    {
        let test = |p: &Perception| -> (b: bool)
            ensures
                b == (p.subject@ == subject@ && p.trace.alive(*arith, now, theta_fade)),
            { text::same(p.subject.as_str(), subject) && p.trace.is_alive(arith, now, theta_fade) };
        selection::select(
            &self.perceptions,
            &test,
            Ghost(alive_of(*arith, subject@, now, theta_fade)),
        )
    }

    /// The live perceptions of a subject that a test answers with yes, as `says` allows.
    pub(crate) fn alive_for_told<'a, A: Arithmetic, F: Fn(&Perception) -> bool>(
        &'a self,
        arith: &A,
        subject: &str,
        now: Tick,
        theta_fade: Double,
        keep: &F,
        Ghost(says): Ghost<spec_fn(Perception, bool) -> bool>,
    ) -> (r: Vec<&'a Perception>)
        requires
            arithmetic::lawful(*arith),
            forall|i: int|
                0 <= i < self@.len() && alive_of(*arith, subject@, now, theta_fade)(
                    #[trigger] self@[i],
                ) ==> call_requires(*keep, (&self@[i],)),
            forall|p: &Perception, b: bool| #[trigger]
                call_ensures(*keep, (p,), b) ==> says(*p, b),
        ensures
            selection::sifted(
                self@,
                selection::among(alive_of(*arith, subject@, now, theta_fade), says),
                selection::targets(r@),
            ),
    {
        let ghost base = alive_of(*arith, subject@, now, theta_fade);
        let ghost askable = |p: Perception| call_requires(*keep, (&p,));
        let ghost replies = selection::among(base, says);
        let test = |p: &Perception| -> (b: bool)
            requires
                base(*p) ==> askable(*p),
            ensures
                replies(*p, b),
            {
                text::same(p.subject.as_str(), subject) && p.trace.is_alive(arith, now, theta_fade)
                    && keep(p)
            };
        assert forall|i: int| 0 <= i < self.perceptions.len() implies call_requires(
            test,
            (&#[trigger] self.perceptions@[i],),
        ) by {
            assert(base(self@[i]) ==> askable(self@[i]));
        }
        selection::sift(
            &self.perceptions,
            &test,
            Ghost(replies),
        )
    }

    /// The live perceptions of a subject at `now` that pass a test (the `WHERE` clause of `DISTILL`).
    /// Only those that are live and about the subject are put to the test.
    pub fn alive_for_where<'a, A: Arithmetic, F: Fn(&Perception) -> bool>(
        &'a self,
        arith: &A,
        subject: &str,
        now: Tick,
        theta_fade: Double,
        keep: &F,
    ) -> (r: Vec<&'a Perception>)
        requires
            arithmetic::lawful(*arith),
            forall|i: int|
                0 <= i < self@.len() && alive_of(*arith, subject@, now, theta_fade)(
                    #[trigger] self@[i],
                ) ==> call_requires(*keep, (&self@[i],)),
        ensures
            selection::sifted(
                self@,
                selection::among(
                    alive_of(*arith, subject@, now, theta_fade),
                    selection::answers_of(*keep),
                ),
                selection::targets(r@),
            ),
    {
        self.alive_for_told(
            arith,
            subject,
            now,
            theta_fade,
            keep,
            Ghost(selection::answers_of(*keep)),
        )
    }

    /// `FADE`: removes the perceptions below the threshold; returns how many faded.
    pub fn fade_swept<A: Arithmetic>(&mut self, arith: &A, now: Tick, theta_fade: Double) -> (r:
        usize)
        requires
            arithmetic::lawful(*arith),
        ensures
            final(self)@ == old(self)@.filter(alive_at(*arith, now, theta_fade)),
            r == old(self)@.len() - final(self)@.len(),
    {
        let ghost before = self@;
        let ghost kept = alive_at(*arith, now, theta_fade);
        let test = |p: &Perception| -> (b: bool)
            ensures
                b == p.trace.alive(*arith, now, theta_fade),
            { p.trace.is_alive(arith, now, theta_fade) };
        let r = selection::retain(
            &mut self.perceptions,
            &test,
            Ghost(selection::verdict(kept)),
        );
        proof {
            selection::sifting_by_a_predicate(before, selection::verdict(kept), kept, self@);
        }
        r
    }

    /// Removes the perceptions that a test answers with yes, as `says` allows.
    pub(crate) fn fade_swept_told<F: Fn(&Perception) -> bool>(
        &mut self,
        drop_if: &F,
        Ghost(says): Ghost<spec_fn(Perception, bool) -> bool>,
    ) -> (r: usize)
        requires
            forall|i: int|
                0 <= i < old(self)@.len() ==> call_requires(*drop_if, (&#[trigger] old(self)@[i],)),
            forall|p: &Perception, b: bool| #[trigger]
                call_ensures(*drop_if, (p,), b) ==> says(*p, b),
        ensures
            selection::sifted(old(self)@, selection::opposite(says), final(self)@),
            r == old(self)@.len() - final(self)@.len(),
    {
        let ghost askable = |p: Perception| call_requires(*drop_if, (&p,));
        let test = |p: &Perception| -> (b: bool)
            requires
                askable(*p),
            ensures
                says(*p, !b),
            { !drop_if(p) };
        assert forall|i: int| 0 <= i < self.perceptions.len() implies call_requires(
            test,
            (&#[trigger] self.perceptions@[i],),
        ) by {
            assert(call_requires(*drop_if, (&old(self)@[i],)));
            assert(askable(self@[i]));
        }
        selection::retain(&mut self.perceptions, &test, Ghost(selection::opposite(says)))
    }

    /// `FADE … WHERE`: removes the perceptions that pass the test, which is the forgetting
    /// condition; returns how many were swept.
    pub fn fade_swept_where<F: Fn(&Perception) -> bool>(&mut self, drop_if: &F) -> (r: usize)
        requires
            forall|i: int|
                0 <= i < old(self)@.len() ==> call_requires(*drop_if, (&#[trigger] old(self)@[i],)),
        ensures
            selection::sifted(
                old(self)@,
                selection::opposite(selection::answers_of(*drop_if)),
                final(self)@,
            ),
            r == old(self)@.len() - final(self)@.len(),
    {
        self.fade_swept_told(drop_if, Ghost(selection::answers_of(*drop_if)))
    }
}

/// A sweep leaves no perception below the threshold, takes none at or above it, and a second sweep
/// at the same tick takes nothing.
pub proof fn sweeping_takes_exactly_the_faded<A: Arithmetic>(
    arith: A,
    memory: Seq<Perception>,
    now: Tick,
    theta: Double,
)
    ensures
        forall|i: int|
            0 <= i < memory.filter(alive_at(arith, now, theta)).len() ==> (
            #[trigger] memory.filter(alive_at(arith, now, theta))[i]).trace.alive(arith, now, theta),
        forall|p: Perception|
            memory.contains(p) && p.trace.alive(arith, now, theta) ==> #[trigger] memory.filter(
                alive_at(arith, now, theta),
            ).contains(p),
        memory.filter(alive_at(arith, now, theta)).filter(alive_at(arith, now, theta))
            == memory.filter(alive_at(arith, now, theta)),
{
    let kept = alive_at(arith, now, theta);
    broadcast use vstd::seq_lib::group_filter_ensures;

    let once = memory.filter(kept);
    assert forall|i: int| 0 <= i < once.len() implies (#[trigger] once[i]).trace.alive(
        arith,
        now,
        theta,
    ) by {
        assert(kept(once[i]));
    }
    assert forall|p: Perception| memory.contains(p) && p.trace.alive(arith, now, theta) implies
        #[trigger] once.contains(p) by {
        let i = choose|i: int| 0 <= i < memory.len() && memory[i] == p;
        assert(kept(memory[i]));
    }
    selection::filter_settles(once, kept);
}

/// The label of a stimulus is the values of its traits in the order of their names, with a space between
/// each two; names do not show, and a stimulus without traits has none.
pub proof fn labels_read_the_values(p: PerceptionView, s: Seq<(Seq<char>, Seq<char>)>)
    requires
        p.traits == traits::map_of(s),
        forall|i: int, j: int|
            0 <= i < j < s.len() ==> text::before((#[trigger] s[i]).0, (#[trigger] s[j]).0),
    ensures
        p.label() == text::joined(Seq::new(s.len(), |i: int| s[i].1), " "@),
        s.len() == 0 ==> p.label().len() == 0,
        s.len() == 1 ==> p.label() == s[0].1,
        s.len() == 2 ==> p.label() == s[0].1 + " "@ + s[1].1,
{
    traits::traits_are_read_by_name(s);
    let v = Seq::new(s.len(), |i: int| s[i].1);
    if s.len() == 2 {
        text::joining_puts_separators_between(seq![s[0].1], " "@, s[1].1);
        text::joining_puts_separators_between(Seq::empty(), " "@, s[0].1);
        assert(v =~= seq![s[0].1].push(s[1].1));
    }
}

/// What is alive of a subject: the perceptions about it that weigh the threshold or more, and of those,
/// where a test is given, the ones that pass it. Nothing is kept of another subject.
pub proof fn only_the_living_are_seen<A: Arithmetic>(
    arith: A,
    memory: Seq<Perception>,
    subject: Seq<char>,
    now: Tick,
    theta: Double,
    kept: spec_fn(Perception) -> bool,
    p: Perception,
)
    ensures
        memory.filter(alive_of(arith, subject, now, theta)).contains(p) <==> memory.contains(p)
            && p.subject@ == subject && theta.at_most(p.trace.life(arith, now)),
        memory.filter(alive_where(arith, subject, now, theta, kept)).contains(p)
            <==> memory.contains(p) && p.subject@ == subject && theta.at_most(
            p.trace.life(arith, now),
        ) && kept(p),
        memory.filter(alive_at(arith, now, theta)).contains(p) <==> memory.contains(p)
            && theta.at_most(p.trace.life(arith, now)),
        memory.filter(failing(kept)).contains(p) <==> memory.contains(p) && !kept(p),
{
    selection::filter_members(memory, alive_of(arith, subject, now, theta), p);
    selection::filter_members(memory, alive_where(arith, subject, now, theta, kept), p);
    selection::filter_members(memory, alive_at(arith, now, theta), p);
    selection::filter_members(memory, failing(kept), p);
}

/// What a perception holds is what its fields hold.
pub proof fn perceptions_hold_their_fields(p: Perception)
    ensures
        p@.subject == p.subject@,
        p@.embedding == p.embedding@,
        p@.traits == p.traits@,
        p@.trace == p.trace,
{
}

} // verus!
