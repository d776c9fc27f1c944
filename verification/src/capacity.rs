//! Machine limits: how large the counts of a memory can grow.
//!
//! Counts are machine words. A memory whose counts are at most `b` has room for a cycle of `n`
//! perceptions where `b + n` is a machine word, and its counts are then at most `b + n`.

use crate::archetype;
use crate::archetype::Archetype;
use crate::archetype::ArchetypeStore;
use crate::archetype::ArchetypeView;
use crate::archetype::MilestoneView;
use crate::archetype::Resilience;
use crate::arithmetic;
use crate::arithmetic::Arithmetic;
use crate::entropy;
use crate::entropy::Tick;
use crate::histogram;
use crate::modes;
use crate::modes::ModeSeedView;
use crate::modes::ModeView;
use crate::number::Double;
use crate::number::Single;
use crate::perception;
use crate::perception::PerceptionView;
use crate::ranking;
use crate::synthesis;
use crate::synthesis::DistillConfig;
use crate::synthesis::IntentionView;
use vstd::prelude::*;

verus! {

/// No label of a histogram counts more than `b`.
pub open spec fn histogram_within(h: Seq<(Seq<char>, usize)>, b: nat) -> bool {
    forall|l: Seq<char>| #[trigger] histogram::count_of(histogram::counts(h), l) <= b
}

/// No count of a mode is more than `b`.
pub open spec fn mode_within(m: ModeView, b: nat) -> bool {
    m.absorbed <= b && histogram_within(m.label_histogram, b)
}

/// No count of any mode is more than `b`.
pub open spec fn modes_within(ms: Seq<ModeView>, b: nat) -> bool {
    forall|i: int| 0 <= i < ms.len() ==> mode_within(#[trigger] ms[i], b)
}

/// No count of an archetype is more than `b`.
pub open spec fn archetype_within(a: ArchetypeView, b: nat) -> bool {
    a.represented <= b && modes_within(a.modes, b)
}

/// The memory is ready for a cycle of a subject: if the subject has an archetype, that decays, and no
/// count of it is more than `b`.
pub open spec fn about_ready(s: Seq<ArchetypeView>, subject: Seq<char>, b: nat) -> bool {
    match archetype::place_of(s, subject) {
        Some(i) => s[i].trace.lambda.positive() && archetype_within(s[i], b),
        None => true,
    }
}

/// The counts of a seed are those of what it absorbed.
pub open spec fn seed_sound(seed: ModeSeedView) -> bool {
    histogram::distinct(seed.label_histogram) && histogram_within(
        seed.label_histogram,
        seed.absorbed as nat,
    )
}

/// The counts of an intention vector are those of what it absorbed.
pub open spec fn cycle_sound(iv: IntentionView) -> bool {
    &&& modes::absorbed_by(iv.modes) <= iv.absorbed
    &&& forall|i: int| 0 <= i < iv.modes.len() ==> seed_sound(#[trigger] iv.modes[i])
    &&& histogram::total(iv.label_histogram) <= usize::MAX
}

/// The counts of each milestone of an arc add up to a machine word.
pub open spec fn arc_countable(arc: Seq<MilestoneView>) -> bool {
    forall|i: int|
        0 <= i < arc.len() ==> histogram::total((#[trigger] arc[i]).label_histogram) <= usize::MAX
}

/// If a subject has an archetype, the counts of each milestone of it add up to a machine word.
pub open spec fn about_countable(s: Seq<ArchetypeView>, subject: Seq<char>) -> bool {
    match archetype::place_of(s, subject) {
        Some(i) => arc_countable(s[i].arc),
        None => true,
    }
}

proof fn histogram_within_more(h: Seq<(Seq<char>, usize)>, b: nat, c: nat)
    requires
        histogram_within(h, b),
        b <= c,
    ensures
        histogram_within(h, c),
{
    assert forall|l: Seq<char>| #[trigger]
        histogram::count_of(histogram::counts(h), l) <= c by {}
}

proof fn modes_within_more(ms: Seq<ModeView>, b: nat, c: nat)
    requires
        modes_within(ms, b),
        b <= c,
    ensures
        modes_within(ms, c),
{
    assert forall|i: int| 0 <= i < ms.len() implies mode_within(#[trigger] ms[i], c) by {
        histogram_within_more(ms[i].label_histogram, b, c);
    }
}

proof fn archetype_within_more(a: ArchetypeView, b: nat, c: nat)
    requires
        archetype_within(a, b),
        b <= c,
    ensures
        archetype_within(a, c),
{
    modes_within_more(a.modes, b, c);
}

/// What is ready within a bound is ready within a larger one.
pub proof fn ready_within_more(s: Seq<ArchetypeView>, subject: Seq<char>, b: nat, c: nat)
    requires
        about_ready(s, subject, b),
        b <= c,
    ensures
        about_ready(s, subject, c),
{
    if let Some(i) = archetype::place_of(s, subject) {
        archetype_within_more(s[i], b, c);
    }
}

proof fn merging_fits<A: Arithmetic>(
    arith: A,
    m: ModeView,
    seed: ModeSeedView,
    now: Tick,
    b: nat,
)
    requires
        mode_within(m, b),
        seed_sound(seed),
        b + seed.absorbed <= usize::MAX,
    ensures
        m.has_room(seed),
        mode_within(m.merged(arith, seed, now), b + seed.absorbed as nat),
{
    let all = m.counts_with(seed);
    histogram::counts_finite(m.label_histogram);
    histogram::counts_plus_finite(histogram::counts(m.label_histogram), seed.label_histogram);
    assert forall|l: Seq<char>| #[trigger]
        histogram::count_of(all, l) <= b + seed.absorbed as nat by {
        histogram::merging_adds_counts(
            histogram::counts(m.label_histogram),
            seed.label_histogram,
            l,
        );
        assert(histogram::count_of(histogram::counts(m.label_histogram), l) <= b);
        assert(histogram::count_of(histogram::counts(seed.label_histogram), l) <= seed.absorbed);
    }
    assert forall|l: Seq<char>| #[trigger] all.contains_key(l) implies all[l] <= usize::MAX by {
        assert(histogram::count_of(all, l) <= b + seed.absorbed as nat);
    }
    histogram::histogram_is_faithful(all);
}

proof fn cosines_are_numbers<A: Arithmetic>(arith: A, ms: Seq<ModeView>, x: Seq<Single>)
    requires
        arithmetic::lawful(arith),
    ensures
        forall|j: int|
            0 <= j < ms.len() ==> !(#[trigger] archetype::mode_resemblances(
                arith,
                ms,
                x,
            )[j]).is_nan(),
{
    assert forall|j: int| 0 <= j < ms.len() implies !(#[trigger] archetype::mode_resemblances(
        arith,
        ms,
        x,
    )[j]).is_nan() by {
        arithmetic::cosine_is_number(arith, ms[j].centroid, x);
    }
}

proof fn settling_fits<A: Arithmetic>(
    arith: A,
    ms: Seq<ModeView>,
    seed: ModeSeedView,
    halflife: Double,
    now: Tick,
    b: nat,
)
    requires
        arithmetic::lawful(arith),
        modes_within(ms, b),
        seed_sound(seed),
        b + seed.absorbed <= usize::MAX,
    ensures
        match archetype::home_of(arith, ms, seed) {
            Some(i) => 0 <= i < ms.len() && ms[i].has_room(seed),
            None => true,
        },
        modes_within(
            archetype::settled(arith, ms, seed, halflife, now),
            b + seed.absorbed as nat,
        ),
{
    let c = b + seed.absorbed as nat;
    let t = archetype::settled(arith, ms, seed, halflife, now);
    modes_within_more(ms, b, c);
    match archetype::home_of(arith, ms, seed) {
        Some(i) => {
            cosines_are_numbers(arith, ms, seed.centroid);
            ranking::last_best_exists(
                archetype::mode_resemblances(arith, ms, seed.centroid),
                ranking::everywhere(),
                Single { bits: modes::DEFAULT_MODE_THETA },
            );
            merging_fits(arith, ms[i], seed, now, b);
            assert forall|k: int| 0 <= k < t.len() implies mode_within(#[trigger] t[k], c) by {
                if k != i {
                    assert(mode_within(ms[k], c));
                }
            }
        },
        None => {
            histogram_within_more(seed.label_histogram, seed.absorbed as nat, c);
            assert forall|k: int| 0 <= k < t.len() implies mode_within(#[trigger] t[k], c) by {
                if k < ms.len() {
                    assert(mode_within(ms[k], c));
                }
            }
        },
    }
}

proof fn settling_all_fits<A: Arithmetic>(
    arith: A,
    ms: Seq<ModeView>,
    seeds: Seq<ModeSeedView>,
    halflife: Double,
    now: Tick,
    b: nat,
)
    requires
        arithmetic::lawful(arith),
        Double::nought().below(halflife),
        modes_within(ms, b),
        forall|i: int| 0 <= i < seeds.len() ==> seed_sound(#[trigger] seeds[i]),
        b + modes::absorbed_by(seeds) <= usize::MAX,
    ensures
        archetype::seeds_fit(arith, ms, seeds, halflife, now),
        modes_within(
            archetype::settled_all(arith, ms, seeds, halflife, now),
            b + modes::absorbed_by(seeds),
        ),
    decreases seeds.len(),
{
    if seeds.len() > 0 {
        let init = seeds.drop_last();
        assert forall|i: int| 0 <= i < init.len() implies seed_sound(#[trigger] init[i]) by {
            assert(seeds[i] == init[i]);
        }
        settling_all_fits(arith, ms, init, halflife, now, b);
        assert(seed_sound(seeds[seeds.len() - 1]));
        settling_fits(
            arith,
            archetype::settled_all(arith, ms, init, halflife, now),
            seeds.last(),
            halflife,
            now,
            b + modes::absorbed_by(init),
        );
    }
}

proof fn evolving_fits<A: Arithmetic>(
    arith: A,
    a: ArchetypeView,
    iv: IntentionView,
    now: Tick,
    b: nat,
)
    requires
        arithmetic::lawful(arith),
        a.trace.lambda.positive(),
        archetype_within(a, b),
        cycle_sound(iv),
        b + iv.absorbed <= usize::MAX,
    ensures
        a.has_room(arith, iv, now),
        a.evolved(arith, iv, now).trace.lambda.positive(),
        archetype_within(a.evolved(arith, iv, now), b + iv.absorbed as nat),
{
    let halflife = entropy::half_life(arith, a.trace.lambda);
    arithmetic::rate_is_positive(arith, a.trace.lambda);
    let share = Double { bits: modes::RECURRENCE_CONSOLIDATION };
    entropy::touching_never_raises_the_rate(arith, a.trace, now, share);
    entropy::touching_keeps_forgetting_possible(arith, a.trace, now, share);
    settling_all_fits(arith, a.modes, iv.modes, halflife, now, b);
    modes_within_more(
        a.evolved(arith, iv, now).modes,
        b + modes::absorbed_by(iv.modes),
        b + iv.absorbed as nat,
    );
}

proof fn each_absorbed(seeds: Seq<ModeSeedView>, i: int)
    requires
        0 <= i < seeds.len(),
    ensures
        seeds[i].absorbed <= modes::absorbed_by(seeds),
    decreases seeds.len(),
{
    if i < seeds.len() - 1 {
        each_absorbed(seeds.drop_last(), i);
    }
}

/// A memory that is ready for a sound cycle of a subject has room for it. Whatever subject it was ready
/// for within `b`, it is then ready for within `b` and what was absorbed, and the milestones of every
/// subject whose counts added up still do.
pub proof fn imprinting_fits<A: Arithmetic>(
    arith: A,
    s: Seq<ArchetypeView>,
    iv: IntentionView,
    resilience: Resilience,
    now: Tick,
    b: nat,
)
    requires
        arithmetic::lawful(arith),
        about_ready(s, iv.subject, b),
        cycle_sound(iv),
        b + iv.absorbed <= usize::MAX,
    ensures
        match archetype::place_of(s, iv.subject) {
            Some(i) => s[i].trace.lambda.positive() && s[i].has_room(arith, iv, now),
            None => true,
        },
        forall|n: Seq<char>|
            about_ready(s, n, b) ==> #[trigger] about_ready(
                archetype::imprinted_into(arith, s, iv, resilience, now),
                n,
                b + iv.absorbed as nat,
            ),
        forall|n: Seq<char>|
            about_countable(s, n) ==> #[trigger] about_countable(
                archetype::imprinted_into(arith, s, iv, resilience, now),
                n,
            ),
{
    let c = b + iv.absorbed as nat;
    let t = archetype::imprinted_into(arith, s, iv, resilience, now);
    let place = archetype::place_of(s, iv.subject);
    archetype::imprinting_keeps_places(arith, s, iv, resilience, now, iv.subject);
    if place is Some {
        evolving_fits(arith, s[place->0], iv, now, b);
    } else {
        let a = archetype::imprinted(arith, iv, resilience, now);
        arithmetic::rate_is_positive(arith, resilience.base());
        assert forall|k: int| 0 <= k < a.modes.len() implies mode_within(
            #[trigger] a.modes[k],
            c,
        ) by {
            each_absorbed(iv.modes, k);
            assert(seed_sound(iv.modes[k]));
            histogram_within_more(
                iv.modes[k].label_histogram,
                iv.modes[k].absorbed as nat,
                c,
            );
        }
    }
    assert forall|n: Seq<char>| about_ready(s, n, b) implies #[trigger] about_ready(t, n, c) by {
        archetype::imprinting_keeps_places(arith, s, iv, resilience, now, n);
        if let Some(i) = archetype::place_of(s, n) {
            if place != Some(i) {
                assert(t[i] == s[i]);
                archetype_within_more(s[i], b, c);
            }
        }
    }
    assert forall|n: Seq<char>| about_countable(s, n) implies #[trigger] about_countable(t, n) by {
        archetype::imprinting_keeps_places(arith, s, iv, resilience, now, n);
        if let Some(i) = archetype::place_of(t, n) {
            if i < s.len() && place == Some(i) {
                assert forall|j: int| 0 <= j < t[i].arc.len() implies histogram::total(
                    (#[trigger] t[i].arc[j]).label_histogram,
                ) <= usize::MAX by {
                    if j < s[i].arc.len() {
                        assert(t[i].arc[j] == s[i].arc[j]);
                    }
                }
            }
        }
    }
}

/// What a distillation yields is sound.
pub proof fn distilling_is_sound<A: Arithmetic>(
    arith: A,
    subject: Seq<char>,
    ps: Seq<PerceptionView>,
    cfg: DistillConfig,
)
    requires
        0 < ps.len() <= usize::MAX,
        cfg.modes.max_modes > 0,
        synthesis::distilled(arith, subject, ps, cfg) is Some,
    ensures
        cycle_sound(synthesis::distilled(arith, subject, ps, cfg)->0),
        synthesis::distilled(arith, subject, ps, cfg)->0.absorbed == ps.len(),
{
    let iv = synthesis::distilled(arith, subject, ps, cfg)->0;
    modes::modes_account_for_perceptions(arith, ps, cfg.modes);
    modes::dimension_bounded(ps, ps[0].embedding.len());
    histogram::tally_total(perception::labels_of(ps));
    modes::seeds_are_tallies(arith, ps, cfg.modes);
    assert forall|i: int| 0 <= i < iv.modes.len() implies seed_sound(#[trigger] iv.modes[i]) by {
        let labels = modes::group_labels(arith, ps, cfg.modes, i);
        assert(modes::clustered(arith, ps, cfg.modes)[i].absorbed == labels.len());
        histogram::tally_finite(labels);
        histogram::tally_bounded(labels);
        histogram::histogram_is_faithful(histogram::tally_of(labels));
        assert forall|l: Seq<char>| #[trigger]
            histogram::count_of(
                histogram::counts(iv.modes[i].label_histogram),
                l,
            ) <= iv.modes[i].absorbed as nat by {
            if histogram::tally_of(labels).contains_key(l) {
                assert(histogram::tally_of(labels)[l] <= labels.len());
            }
        }
    }
}

/// Whether no count of an archetype is more than a bound.
fn archetype_fits(a: &Archetype, bound: usize) -> (r: bool)
    ensures
        r == archetype_within(a@, bound as nat),
{
    if a.represented > bound {
        return false;
    }
    let mut i: usize = 0;
    while i < a.modes.len()
        invariant
            i <= a.modes.len(),
            forall|k: int| 0 <= k < i ==> mode_within(#[trigger] a@.modes[k], bound as nat),
        decreases a.modes.len() - i,
    {
        assert(a@.modes[i as int] == a.modes@[i as int]@);
        if a.modes[i].absorbed > bound || !histogram::within(&a.modes[i].label_histogram, bound) {
            assert(!mode_within(a@.modes[i as int], bound as nat));
            return false;
        }
        i += 1;
    }
    true
}

/// Whether the counts of each milestone of an arc add up to a machine word.
fn arc_fits(a: &Archetype) -> (r: bool)
    ensures
        r == arc_countable(a@.arc),
{
    let mut i: usize = 0;
    while i < a.arc.len()
        invariant
            i <= a.arc.len(),
            forall|k: int|
                0 <= k < i ==> histogram::total((#[trigger] a@.arc[k]).label_histogram)
                    <= usize::MAX,
        decreases a.arc.len() - i,
    {
        assert(a@.arc[i as int] == a.arc@[i as int]@);
        if !histogram::summable(&a.arc[i].label_histogram) {
            assert(histogram::total(a@.arc[i as int].label_histogram) > usize::MAX);
            return false;
        }
        i += 1;
    }
    true
}

/// Whether a memory is ready for a cycle of a subject within a bound.
pub fn is_ready(store: &ArchetypeStore, subject: &str, bound: usize) -> (r: bool)
    ensures
        r == about_ready(store@, subject@, bound as nat),
{
    match store.get(subject) {
        Some(a) => {
            let lambda = a.trace.lambda;
            let decays: bool = Double::zero().lt(lambda) && lambda.lt(
                Double { bits: crate::number::DOUBLE_INFINITY },
            );
            assert(decays == lambda.positive());
            decays && archetype_fits(a, bound)
        },
        None => true,
    }
}

/// Whether the counts of each milestone of a subject add up to a machine word.
pub fn is_countable(store: &ArchetypeStore, subject: &str) -> (r: bool)
    ensures
        r == about_countable(store@, subject@),
{
    match store.get(subject) {
        Some(a) => arc_fits(a),
        None => true,
    }
}

} // verus!
