//! `EVOKE`: semantic resonance with a token budget.
//!
//! Evocation does not replay history. It reconstructs the essence of a subject within a token
//! budget: a compressed block of context, not a list of events.

use crate::archetype;
use crate::archetype::ArcMilestone;
use crate::archetype::Archetype;
use crate::archetype::ArchetypeStore;
use crate::archetype::ArchetypeView;
use crate::archetype::MilestoneView;
use crate::arithmetic;
use crate::arithmetic::Arithmetic;
use crate::capacity;
use crate::entropy::Tick;
use crate::entropy::DEFAULT_THETA_FADE;
use crate::factstore;
use crate::factstore::FactStore;
use crate::factstore::FactView;
use crate::factstore::RecalledFact;
use crate::factstore::RecalledView;
use crate::histogram;
use crate::histogram::Histogram;
use crate::modes::ModeView;
use crate::modes::ONE_SINGLE;
use crate::number::Double;
use crate::number::Single;
use crate::number::Vector;
use crate::ranking;
use crate::selection;
use crate::text;
use crate::trajectory;
use vstd::prelude::*;

verus! {

/// Default cost, in tokens, of a dense vector when it is rendered.
pub const DEFAULT_TOKENS_PER_VECTOR: usize = 24;

/// How much of the evolutionary arc to return.
#[derive(Clone, Copy, Debug, PartialEq, Eq, Structural)]
pub enum ArcDetail {
    /// The whole arc, trimmed to the budget.
    Full,
    /// Only a few key milestones.
    Summary,
    /// No arc: the current state only.
    Omitted,
}

impl Default for ArcDetail {
    fn default() -> (r: ArcDetail)
        ensures
            r == ArcDetail::Full,
    {
        ArcDetail::Full
    }
}

/// Parameters of an evocation.
#[derive(Debug)]
pub struct EvokeRequest {
    pub subject: String,
    /// The returned context does not exceed it.
    pub token_budget: usize,
    /// Only milestones from this tick on; `None` is the whole arc.
    pub since: Option<Tick>,
    /// How much of the arc to return.
    pub arc_detail: ArcDetail,
    /// Cost, in tokens, of a rendered dense vector.
    pub tokens_per_vector: usize,
}

/// What a request holds.
#[verifier::ext_equal]
pub struct RequestView {
    pub subject: Seq<char>,
    pub token_budget: usize,
    pub since: Option<Tick>,
    pub arc_detail: ArcDetail,
    pub tokens_per_vector: usize,
}

impl View for EvokeRequest {
    type V = RequestView;

    open spec fn view(&self) -> RequestView {
        RequestView {
            subject: self.subject@,
            token_budget: self.token_budget,
            since: self.since,
            arc_detail: self.arc_detail,
            tokens_per_vector: self.tokens_per_vector,
        }
    }
}

impl Clone for EvokeRequest {
    fn clone(&self) -> (r: EvokeRequest)
        ensures
            r@ == self@,
    {
        EvokeRequest {
            subject: self.subject.clone(),
            token_budget: self.token_budget,
            since: self.since,
            arc_detail: self.arc_detail,
            tokens_per_vector: self.tokens_per_vector,
        }
    }
}

impl EvokeRequest {
    /// An evocation of the whole arc, without a time window.
    pub fn new(subject: &str, token_budget: usize) -> (r: EvokeRequest)
        ensures
            r@ == (RequestView {
                subject: subject@,
                token_budget,
                since: None,
                arc_detail: ArcDetail::Full,
                tokens_per_vector: DEFAULT_TOKENS_PER_VECTOR,
            }),
    {
        EvokeRequest {
            subject: subject.to_owned(),
            token_budget,
            since: None,
            arc_detail: ArcDetail::Full,
            tokens_per_vector: DEFAULT_TOKENS_PER_VECTOR,
        }
    }
}

impl RequestView {
    /// How many vectors the budget pays for.
    pub open spec fn budget_vectors(self) -> nat {
        self.token_budget as nat / (if self.tokens_per_vector == 0 {
            1
        } else {
            self.tokens_per_vector as nat
        })
    }

    /// The core, where the budget pays for it.
    pub open spec fn core_vectors(self) -> nat {
        if self.tokens_per_vector <= self.token_budget {
            1
        } else {
            0
        }
    }

    /// How many vectors the budget pays for besides the core.
    pub open spec fn spare_vectors(self) -> nat {
        if self.budget_vectors() <= self.core_vectors() {
            0
        } else {
            (self.budget_vectors() - self.core_vectors()) as nat
        }
    }

    /// How many vectors of the arc there may be: two thirds of what the core leaves, at most four in
    /// a summary, none where no arc is wanted.
    pub open spec fn arc_quota(self) -> nat {
        let base = self.spare_vectors() * 2 / 3;
        match self.arc_detail {
            ArcDetail::Full => base,
            ArcDetail::Summary => ranking::at_most(base, 4),
            ArcDetail::Omitted => 0,
        }
    }
}

/// The result of `EVOKE`.
#[derive(Debug)]
pub struct CompressedContext {
    pub subject: String,
    /// Number of perceptions that the essence represents.
    pub represented: usize,
    /// Number of vectors returned: core, milestones and anomalies.
    pub vectors_returned: usize,
    /// Number of anomalies included.
    pub anomalies_included: usize,
    /// Milestones included, each with its drift from the first milestone of all.
    pub arc_points: Vec<(Tick, Single)>,
    /// Label of the current dominant behaviour.
    pub core_label: String,
    /// Labels of the milestones included.
    pub arc_labels: Vec<String>,
    /// Labels of the anomalies included.
    pub anomaly_labels: Vec<String>,
    /// For the most prominent behaviours, their share of activity at each milestone.
    pub domain_arcs: Vec<(String, Vector)>,
    /// Histograms of the milestones included.
    pub arc_label_histograms: Vec<Histogram>,
    /// Estimated size of the block, at most the budget.
    pub token_estimate: usize,
    /// Label of the mode that the evocation focused on, if it did.
    pub resonating_mode: Option<String>,
    /// For each live mode its label and how far it has drifted from its birth.
    pub mode_drifts: Vec<(String, Single)>,
}

/// What a context holds.
#[verifier::ext_equal]
pub struct ContextView {
    pub subject: Seq<char>,
    pub represented: usize,
    pub vectors_returned: usize,
    pub anomalies_included: usize,
    pub arc_points: Seq<(Tick, Single)>,
    pub core_label: Seq<char>,
    pub arc_labels: Seq<Seq<char>>,
    pub anomaly_labels: Seq<Seq<char>>,
    pub domain_arcs: Seq<(Seq<char>, Seq<Single>)>,
    pub arc_label_histograms: Seq<Seq<(Seq<char>, usize)>>,
    pub token_estimate: usize,
    pub resonating_mode: Option<Seq<char>>,
    pub mode_drifts: Seq<(Seq<char>, Single)>,
}

/// What an optional text holds.
pub open spec fn text_in(t: Option<String>) -> Option<Seq<char>> {
    match t {
        Some(s) => Some(s@),
        None => None,
    }
}

/// What each labelled series of a list holds.
pub open spec fn series_of(s: Seq<(String, Vector)>) -> Seq<(Seq<char>, Seq<Single>)> {
    Seq::new(s.len(), |i: int| (s[i].0@, s[i].1@))
}

/// What each histogram of a list holds.
pub open spec fn histograms_of(s: Seq<Histogram>) -> Seq<Seq<(Seq<char>, usize)>> {
    Seq::new(s.len(), |i: int| histogram::entries(s[i]@))
}

/// What each labelled number of a list holds.
pub open spec fn marks_of(s: Seq<(String, Single)>) -> Seq<(Seq<char>, Single)> {
    Seq::new(s.len(), |i: int| (s[i].0@, s[i].1))
}

impl View for CompressedContext {
    type V = ContextView;

    open spec fn view(&self) -> ContextView {
        ContextView {
            subject: self.subject@,
            represented: self.represented,
            vectors_returned: self.vectors_returned,
            anomalies_included: self.anomalies_included,
            arc_points: self.arc_points@,
            core_label: self.core_label@,
            arc_labels: text::texts_of(self.arc_labels@),
            anomaly_labels: text::texts_of(self.anomaly_labels@),
            domain_arcs: series_of(self.domain_arcs@),
            arc_label_histograms: histograms_of(self.arc_label_histograms@),
            token_estimate: self.token_estimate,
            resonating_mode: text_in(self.resonating_mode),
            mode_drifts: marks_of(self.mode_drifts@),
        }
    }
}

impl CompressedContext {
    /// Perceptions represented per vector returned; zero where no vector is returned.
    pub open spec fn ratio<A: Arithmetic>(&self, arith: A) -> Double {
        if self.vectors_returned == 0 {
            Double::nought()
        } else {
            arithmetic::quotient64(
                arith,
                arithmetic::double_of(arith, self.represented as u64),
                arithmetic::double_of(arith, self.vectors_returned as u64),
            )
        }
    }

    /// Perceptions represented per vector returned; zero where no vector is returned.
    pub fn compression_ratio<A: Arithmetic>(&self, arith: &A) -> (r: Double)
        requires
            arithmetic::lawful(*arith),
        ensures
            r == self.ratio(*arith),
    {
        if self.vectors_returned == 0 {
            return Double::zero();
        }
        arithmetic::over64(
            arith,
            arithmetic::double_from(arith, self.represented as u64),
            arithmetic::double_from(arith, self.vectors_returned as u64),
        )
    }
}

/// The milestones from a tick on.
pub open spec fn recent(since: Option<Tick>) -> spec_fn(MilestoneView) -> bool {
    |m: MilestoneView|
        match since {
            Some(s) => s.at_most(m.at),
            None => true,
        }
}

/// The milestones of an arc that are in the requested window.
pub open spec fn window_of(arc: Seq<MilestoneView>, since: Option<Tick>) -> Seq<MilestoneView> {
    arc.filter(recent(since))
}

/// Which of `n` milestones are returned where there may be `quota`: all, or evenly spaced ones from
/// the first to the last.
pub open spec fn thinned(n: nat, quota: nat) -> Seq<int> {
    if n <= quota {
        Seq::new(n, |i: int| i)
    } else {
        Seq::new(
            quota,
            |i: int|
                (i * (n - 1)) / (if quota <= 1 {
                    1
                } else {
                    quota - 1
                }),
        )
    }
}

/// The drift of a milestone from the first of all: `1 − cos`.
pub open spec fn arc_drift<A: Arithmetic>(
    arith: A,
    m: MilestoneView,
    origin: Seq<Single>,
) -> Single {
    arithmetic::difference32(
        arith,
        Single { bits: ONE_SINGLE },
        arithmetic::similarity(arith, m.direction, origin),
    )
}

/// The milestones that an evocation returns.
pub open spec fn returned_milestones(
    arc: Seq<MilestoneView>,
    quota: nat,
    since: Option<Tick>,
) -> Seq<MilestoneView> {
    let window = window_of(arc, since);
    let at = thinned(window.len(), quota);
    Seq::new(at.len(), |i: int| window[at[i]])
}

/// When each returned milestone was, and how far it had drifted.
pub open spec fn points_of<A: Arithmetic>(
    arith: A,
    ms: Seq<MilestoneView>,
    origin: Seq<Single>,
) -> Seq<(Tick, Single)> {
    Seq::new(ms.len(), |i: int| (ms[i].at, arc_drift(arith, ms[i], origin)))
}

/// The labels of milestones.
pub open spec fn milestone_labels(ms: Seq<MilestoneView>) -> Seq<Seq<char>> {
    Seq::new(ms.len(), |i: int| ms[i].label)
}

/// The histograms of milestones.
pub open spec fn milestone_histograms(ms: Seq<MilestoneView>) -> Seq<Seq<(Seq<char>, usize)>> {
    Seq::new(ms.len(), |i: int| ms[i].label_histogram)
}

/// The milestones of a window.
pub(crate) fn window<'a>(arc: &'a Vec<ArcMilestone>, since: Option<Tick>) -> (r: Vec<&'a ArcMilestone>)
    ensures
        archetype::milestones_of(selection::targets(r@)) == window_of(
            archetype::milestones_of(arc@),
            since,
        ),
{
    let ghost all = archetype::milestones_of(arc@);
    let ghost kept = recent(since);
    let mut out: Vec<&ArcMilestone> = Vec::new();
    let mut i: usize = 0;
    proof {
        reveal(Seq::filter);
        assert(all.take(0) =~= Seq::empty());
        assert(archetype::milestones_of(selection::targets(out@)) =~= all.take(0).filter(kept));
    }
    while i < arc.len()
        invariant
            i <= arc.len(),
            all == archetype::milestones_of(arc@),
            kept == recent(since),
            archetype::milestones_of(selection::targets(out@)) == all.take(i as int).filter(kept),
        decreases arc.len() - i,
    {
        let m: &ArcMilestone = &arc[i];
        let ghost had = archetype::milestones_of(selection::targets(out@));
        proof {
            reveal(Seq::filter);
            assert(all.take(i + 1).drop_last() =~= all.take(i as int));
            assert(all.take(i + 1).last() == m@);
        }
        let inside: bool = match since {
            Some(s) => s.le(m.at),
            None => true,
        };
        assert(inside == kept(m@));
        if inside {
            out.push(m);
            assert(archetype::milestones_of(selection::targets(out@)) =~= had.push(m@));
        }
        i += 1;
    }
    proof {
        assert(all.take(i as int) =~= all);
    }
    out
}

/// The place of the `i`-th of `quota` evenly spaced milestones out of `n`.
fn spaced(i: usize, n: usize, quota: usize) -> (r: usize)
    requires
        i < quota < n,
    ensures
        r == thinned(n as nat, quota as nat)[i as int],
        r < n,
{
    if quota <= 1 {
        assert((0 * (n - 1)) / 1 == 0) by (nonlinear_arith);
        return 0;
    }
    let ghost p = (i as int) * (n - 1);
    let ghost d = quota - 1;
    proof {
        assert(0 <= p <= d * (n - 1)) by (nonlinear_arith)
            requires
                p == (i as int) * (n - 1),
                0 <= i <= d,
                n >= 1,
        ;
        assert(d * (n - 1) <= 0xffff_ffff_ffff_ffff * 0xffff_ffff_ffff_ffff) by (nonlinear_arith)
            requires
                0 <= d <= 0xffff_ffff_ffff_ffff,
                1 <= n <= 0xffff_ffff_ffff_ffff,
        ;
        assert(0 <= p / d <= n - 1) by (nonlinear_arith)
            requires
                0 <= p <= d * (n - 1),
                d > 0,
        ;
    }
    let wide: u128 = (i as u128) * ((n - 1) as u128) / ((quota - 1) as u128);
    wide as usize
}

/// The order of behaviours along milestones: the more prominent first, equally prominent ones in
/// dictionary order.
pub open spec fn domain_order<A: Arithmetic>(arith: A, ms: Seq<MilestoneView>) -> spec_fn(
    Seq<char>,
    Seq<char>,
) -> bool {
    |a: Seq<char>, b: Seq<char>|
        {
            let x = trajectory::prominence(arith, trajectory::shares(arith, ms, a)).key();
            let y = trajectory::prominence(arith, trajectory::shares(arith, ms, b)).key();
            x > y || (x == y && text::before(a, b))
        }
}

/// The behaviours that occur in some milestone, the most prominent first.
pub open spec fn domains_in_order<A: Arithmetic>(arith: A, ms: Seq<MilestoneView>) -> Seq<
    Seq<char>,
> {
    ranking::listing(trajectory::occurring(ms), domain_order(arith, ms))
}

/// The trajectories of the `max` most prominent behaviours along milestones.
pub open spec fn trajectories<A: Arithmetic>(
    arith: A,
    ms: Seq<MilestoneView>,
    max: nat,
) -> Seq<(Seq<char>, Seq<Single>)> {
    let labels = domains_in_order(arith, ms);
    Seq::new(
        ranking::at_most(labels.len(), max),
        |i: int| (labels[i], trajectory::shares(arith, ms, labels[i])),
    )
}

proof fn domain_order_is_strict<A: Arithmetic>(arith: A, ms: Seq<MilestoneView>)
    ensures
        ranking::asymmetric(domain_order(arith, ms)),
        forall|a: Seq<char>, b: Seq<char>, c: Seq<char>|
            #[trigger] domain_order(arith, ms)(a, b) && #[trigger] domain_order(arith, ms)(b, c)
                ==> domain_order(arith, ms)(a, c),
        forall|a: Seq<char>, b: Seq<char>|
            a != b ==> #[trigger] domain_order(arith, ms)(a, b) || domain_order(arith, ms)(b, a),
{
    let lt = domain_order(arith, ms);
    assert forall|a: Seq<char>, b: Seq<char>| #[trigger] lt(a, b) implies !lt(b, a) by {
        if lt(b, a) {
            text::before_transitive(a, b, a);
            text::before_irreflexive(a);
        }
    }
    assert forall|a: Seq<char>, b: Seq<char>, c: Seq<char>|
        #[trigger] lt(a, b) && #[trigger] lt(b, c) implies lt(a, c) by {
        if text::before(a, b) && text::before(b, c) {
            text::before_transitive(a, b, c);
        }
    }
    assert forall|a: Seq<char>, b: Seq<char>| a != b implies #[trigger] lt(a, b) || lt(b, a) by {
        text::before_total(a, b);
    }
}

/// The behaviours that an evocation ranks are those that occur in the milestones: each once, the most
/// prominent first.
pub proof fn domains_are_listed<A: Arithmetic>(arith: A, ms: Seq<MilestoneView>)
    ensures
        ranking::lists(
            domains_in_order(arith, ms),
            trajectory::occurring(ms),
            domain_order(arith, ms),
        ),
{
    domain_order_is_strict(arith, ms);
    assert forall|l: Seq<char>| #[trigger] trajectory::occurring(ms)(l) implies trajectory::mentions(
        ms,
    ).contains(l) by {
        trajectory::occurring_is_mentioned(ms, l);
    }
    ranking::listing_exists(
        trajectory::mentions(ms),
        trajectory::occurring(ms),
        domain_order(arith, ms),
    );
}

/// Reconstructs, for the most prominent behaviours, their share of activity at each milestone of
/// the window. Prominence is the peak, raised by concentration: a behaviour that clearly peaked once
/// ranks before one that was always around.
fn domain_trajectories<A: Arithmetic>(
    arith: &A,
    a: &Archetype,
    max_domains: usize,
    since: Option<Tick>,
) -> (r: Vec<(String, Vector)>)
    requires
        arithmetic::lawful(*arith),
        capacity::arc_countable(a@.arc),
    ensures
        series_of(r@) == trajectories(*arith, window_of(a@.arc, since), max_domains as nat),
{
    let milestones = window(&a.arc, since);
    let ghost ms = window_of(a@.arc, since);
    proof {
        filter_keeps(a@.arc, recent(since));
    }
    let labels = trajectory::collect_labels(&milestones);
    let ghost ls = text::texts_of(labels@);
    let mut series: Vec<Vector> = Vec::new();
    let mut scores: Vec<Single> = Vec::new();
    let mut i: usize = 0;
    while i < labels.len()
        invariant
            arithmetic::lawful(*arith),
            i <= labels.len(),
            ms == archetype::milestones_of(selection::targets(milestones@)),
            capacity::arc_countable(ms),
            ls == text::texts_of(labels@),
            series.len() == i,
            scores.len() == i,
            forall|j: int|
                0 <= j < i ==> (#[trigger] series@[j])@ == trajectory::shares(*arith, ms, ls[j]),
            forall|j: int|
                0 <= j < i ==> #[trigger] scores@[j] == trajectory::prominence(
                    *arith,
                    trajectory::shares(*arith, ms, ls[j]),
                ),
        decreases labels.len() - i,
    {
        assert(ls[i as int] == labels@[i as int]@);
        let s = trajectory::trace_label(arith, &milestones, labels[i].as_str());
        scores.push(trajectory::measure_prominence(arith, &s));
        series.push(s);
        i += 1;
    }
    let ghost by_label = domain_order(*arith, ms);
    let ghost lt = |x: int, y: int|
        0 <= x < ls.len() && 0 <= y < ls.len() && by_label(ls[x], ls[y]);
    let before = |x: usize, y: usize| -> (b: bool)
        requires
            x < labels.len(),
            y < labels.len(),
            scores.len() == labels.len(),
        ensures
            b == (scores@[x as int].key() > scores@[y as int].key() || (scores@[x as int].key()
                == scores@[y as int].key() && text::before(
                labels@[x as int]@,
                labels@[y as int]@,
            ))),
        {
            scores[x].ahead_of(scores[y]) || (!scores[y].ahead_of(scores[x]) && text::precedes(
                labels[x].as_str(),
                labels[y].as_str(),
            ))
        };
    proof {
        domain_order_is_strict(*arith, ms);
        assert(ranking::asymmetric(lt)) by {
            assert forall|x: int, y: int| #[trigger] lt(x, y) implies !lt(y, x) by {
                assert(by_label(ls[x], ls[y]));
            }
        }
        assert forall|x: int, y: int, z: int| #[trigger] lt(x, y) && #[trigger] lt(y, z) implies lt(
            x,
            z,
        ) by {
            assert(by_label(ls[x], ls[y]) && by_label(ls[y], ls[z]));
        }
        assert forall|x: int, y: int|
            0 <= x < ls.len() && 0 <= y < ls.len() && x != y implies #[trigger] lt(x, y) || lt(
            y,
            x,
        ) by {
            assert(ls[x] != ls[y]);
            assert(by_label(ls[x], ls[y]) || by_label(ls[y], ls[x]));
        }
        assert forall|x: usize, y: usize, b: bool|
            x < labels.len() && y < labels.len() && #[trigger] call_ensures(
                before,
                (x, y),
                b,
            ) implies b == lt(x as int, y as int) by {
            assert(ls[x as int] == labels@[x as int]@);
            assert(ls[y as int] == labels@[y as int]@);
        }
    }
    let order = ranking::arrange(labels.len(), before, Ghost(lt));
    let ghost places = ranking::positions(order@);
    let ghost ranked = Seq::new(places.len(), |k: int| ls[places[k]]);
    proof {
        let member = trajectory::occurring(ms);
        assert forall|k: int| 0 <= k < places.len() implies 0 <= #[trigger] places[k]
            < ls.len() by {
            assert(ranking::below(ls.len() as int)(places[k]));
        }
        assert forall|x: int, y: int| 0 <= x < y < ranked.len() implies by_label(
            #[trigger] ranked[x],
            #[trigger] ranked[y],
        ) by {
            assert(lt(places[x], places[y]));
        }
        assert forall|k: int| 0 <= k < ranked.len() implies member(#[trigger] ranked[k]) by {
            assert(ls.contains(ls[places[k]]));
        }
        assert forall|l: Seq<char>| #[trigger] member(l) implies ranked.contains(l) by {
            assert(ls.contains(l));
            let x = choose|x: int| 0 <= x < ls.len() && ls[x] == l;
            assert(ranking::below(ls.len() as int)(x));
            let k = choose|k: int| 0 <= k < places.len() && places[k] == x;
            assert(ranked[k] == l);
        }
        ranking::lists_is_listing(ranked, member, by_label);
    }
    let mut out: Vec<(String, Vector)> = Vec::new();
    let mut k: usize = 0;
    while k < order.len() && k < max_domains
        invariant
            k <= order.len(),
            k <= max_domains,
            order.len() == labels.len(),
            series.len() == labels.len(),
            forall|k: int| 0 <= k < order.len() ==> #[trigger] order@[k] < labels.len(),
            ls == text::texts_of(labels@),
            places == ranking::positions(order@),
            ranked == Seq::new(places.len(), |k: int| ls[places[k]]),
            forall|j: int|
                0 <= j < labels.len() ==> (#[trigger] series@[j])@ == trajectory::shares(
                    *arith,
                    ms,
                    ls[j],
                ),
            out.len() == k,
            forall|j: int|
                0 <= j < k ==> (#[trigger] out@[j]).0@ == ranked[j] && out@[j].1@
                    == trajectory::shares(*arith, ms, ranked[j]),
        decreases order.len() - k,
    {
        let at: usize = order[k];
        proof {
            assert(places[k as int] == at as int);
            assert(ranked[k as int] == ls[at as int]);
        }
        out.push((labels[at].clone(), crate::number::copy_vector(&series[at])));
        k += 1;
    }
    assert(series_of(out@) =~= trajectories(*arith, ms, max_domains as nat));
    out
}

/// What is kept of an arc can be counted where all of it can.
proof fn filter_keeps(arc: Seq<MilestoneView>, kept: spec_fn(MilestoneView) -> bool)
    requires
        capacity::arc_countable(arc),
    ensures
        capacity::arc_countable(arc.filter(kept)),
    decreases arc.len(),
{
    reveal(Seq::filter);
    if arc.len() > 0 {
        let init = arc.drop_last();
        assert forall|i: int| 0 <= i < init.len() implies histogram::total(
            (#[trigger] init[i]).label_histogram,
        ) <= usize::MAX by {
            assert(arc[i] == init[i]);
        }
        filter_keeps(init, kept);
        assert(histogram::total(arc[arc.len() - 1].label_histogram) <= usize::MAX);
    }
}

/// Reduces the arc to `quota` milestones of the window and reports when each was, how far it had
/// drifted from the first milestone of all, its label and its histogram.
fn arc_signature<A: Arithmetic>(
    arith: &A,
    a: &Archetype,
    quota: usize,
    since: Option<Tick>,
) -> (r: (Vec<(Tick, Single)>, Vec<String>, Vec<Histogram>))
    requires
        arithmetic::lawful(*arith),
    ensures
        ({
            let ms = returned_milestones(a@.arc, quota as nat, since);
            &&& r.0@ == points_of(*arith, ms, a@.arc[0].direction)
            &&& text::texts_of(r.1@) == milestone_labels(ms)
            &&& histograms_of(r.2@) == milestone_histograms(ms)
            &&& r.0.len() == ms.len()
        }),
{
    let ghost ms = returned_milestones(a@.arc, quota as nat, since);
    let mut points: Vec<(Tick, Single)> = Vec::new();
    let mut labels: Vec<String> = Vec::new();
    let mut histograms: Vec<Histogram> = Vec::new();
    let window = window(&a.arc, since);
    let ghost ws = window_of(a@.arc, since);
    proof {
        selection::filter_is_shorter(a@.arc, recent(since));
    }
    let n: usize = window.len();
    let count: usize = if n <= quota {
        n
    } else {
        quota
    };
    let mut i: usize = 0;
    while i < count
        invariant
            arithmetic::lawful(*arith),
            i <= count,
            n == window.len(),
            ws == archetype::milestones_of(selection::targets(window@)),
            ws == window_of(a@.arc, since),
            n > 0 ==> a.arc.len() > 0,
            count == (if n <= quota {
                n
            } else {
                quota
            }),
            ms == returned_milestones(a@.arc, quota as nat, since),
            ms.len() == count,
            points.len() == i,
            labels.len() == i,
            histograms.len() == i,
            forall|j: int|
                0 <= j < i ==> #[trigger] points@[j] == (
                    ms[j].at,
                    arc_drift(*arith, ms[j], a@.arc[0].direction),
                ),
            forall|j: int| 0 <= j < i ==> (#[trigger] labels@[j])@ == ms[j].label,
            forall|j: int|
                0 <= j < i ==> histogram::entries((#[trigger] histograms@[j])@)
                    == ms[j].label_histogram,
        decreases count - i,
    {
        let at: usize = if n <= quota {
            i
        } else {
            spaced(i, n, quota)
        };
        let m: &ArcMilestone = window[at];
        proof {
            assert(ws[at as int] == m@);
            assert(ms[i as int] == m@);
            assert(a@.arc[0] == a.arc@[0]@);
        }
        let c = arithmetic::cosine(arith, &m.direction, &a.arc[0].direction);
        points.push((m.at, arithmetic::minus32(arith, Single { bits: ONE_SINGLE }, c)));
        labels.push(m.label.clone());
        histograms.push(histogram::copy(&m.label_histogram));
        i += 1;
    }
    proof {
        assert(points@ =~= points_of(*arith, ms, a@.arc[0].direction));
        assert(text::texts_of(labels@) =~= milestone_labels(ms));
        assert(histograms_of(histograms@) =~= milestone_histograms(ms));
    }
    (points, labels, histograms)
}

/// The modes that are at or above the forgetting threshold.
pub open spec fn living_modes<A: Arithmetic>(arith: A, now: Tick) -> spec_fn(ModeView) -> bool {
    |m: ModeView| m.trace.alive(arith, now, Double { bits: DEFAULT_THETA_FADE })
}

/// The labels and drifts of modes.
pub open spec fn drifts_of<A: Arithmetic>(arith: A, ms: Seq<ModeView>) -> Seq<(Seq<char>, Single)> {
    Seq::new(ms.len(), |i: int| (ms[i].label, ms[i].drifted(arith)))
}

/// The labels and drifts of the live modes.
fn mode_drifts<A: Arithmetic>(arith: &A, a: &Archetype, now: Tick) -> (r: Vec<(String, Single)>)
    requires
        arithmetic::lawful(*arith),
    ensures
        marks_of(r@) == drifts_of(*arith, a@.modes.filter(living_modes(*arith, now))),
{
    let ghost kept = living_modes(*arith, now);
    let ghost all = a@.modes;
    let mut out: Vec<(String, Single)> = Vec::new();
    let mut i: usize = 0;
    proof {
        reveal(Seq::filter);
        assert(all.take(0) =~= Seq::empty());
        assert(marks_of(out@) =~= drifts_of(*arith, all.take(0).filter(kept)));
    }
    while i < a.modes.len()
        invariant
            arithmetic::lawful(*arith),
            i <= a.modes.len(),
            all == a@.modes,
            kept == living_modes(*arith, now),
            marks_of(out@) == drifts_of(*arith, all.take(i as int).filter(kept)),
        decreases a.modes.len() - i,
    {
        let m = &a.modes[i];
        let ghost had = marks_of(out@);
        let ghost prior = all.take(i as int).filter(kept);
        proof {
            reveal(Seq::filter);
            assert(all.take(i + 1).drop_last() =~= all.take(i as int));
            assert(all.take(i + 1).last() == m@);
        }
        if m.trace.is_alive(arith, now, Double { bits: DEFAULT_THETA_FADE }) {
            out.push((m.label.clone(), m.drift(arith)));
            proof {
                assert(kept(m@));
                assert(marks_of(out@) =~= had.push((m@.label, m@.drifted(*arith))));
                assert(drifts_of(*arith, prior.push(m@)) =~= had.push(
                    (m@.label, m@.drifted(*arith)),
                ));
            }
        } else {
            assert(!kept(m@));
        }
        i += 1;
    }
    proof {
        assert(all.take(i as int) =~= all);
    }
    out
}

/// What an evocation returns of an archetype.
pub open spec fn context_of<A: Arithmetic>(
    arith: A,
    a: ArchetypeView,
    req: RequestView,
    now: Tick,
) -> ContextView {
    let ms = returned_milestones(a.arc, req.arc_quota(), req.since);
    let anomalies = ranking::at_most(
        a.anomalies.len(),
        (req.spare_vectors() - ms.len()) as nat,
    );
    let vectors = req.core_vectors() + ms.len() + anomalies;
    ContextView {
        subject: a.subject,
        represented: a.represented,
        vectors_returned: vectors as usize,
        anomalies_included: anomalies as usize,
        arc_points: points_of(arith, ms, a.arc[0].direction),
        core_label: a.core_label,
        arc_labels: milestone_labels(ms),
        anomaly_labels: a.anomaly_labels.take(
            ranking::at_most(a.anomaly_labels.len(), anomalies) as int,
        ),
        domain_arcs: if req.arc_detail == ArcDetail::Omitted {
            Seq::empty()
        } else {
            trajectories(
                arith,
                window_of(a.arc, req.since),
                if req.budget_vectors() == 0 {
                    1
                } else {
                    req.budget_vectors()
                },
            )
        },
        arc_label_histograms: milestone_histograms(ms),
        token_estimate: (vectors * req.tokens_per_vector as nat) as usize,
        resonating_mode: None,
        mode_drifts: drifts_of(arith, a.modes.filter(living_modes(arith, now))),
    }
}

/// What an evocation returns: nothing where the subject has no archetype or it has faded.
pub open spec fn evoked<A: Arithmetic>(
    arith: A,
    s: Seq<ArchetypeView>,
    req: RequestView,
    now: Tick,
) -> Option<ContextView> {
    match archetype::place_of(s, req.subject) {
        Some(i) => if s[i].trace.life(arith, now).below(Double { bits: DEFAULT_THETA_FADE }) {
            None
        } else {
            Some(context_of(arith, s[i], req, now))
        },
        None => None,
    }
}

/// The milestones that are returned stay within the quota.
proof fn returned_within_quota(arc: Seq<MilestoneView>, quota: nat, since: Option<Tick>)
    ensures
        returned_milestones(arc, quota, since).len() <= quota,
{
}

/// The core and what is bought besides it cost no more than the budget, and there are no more of
/// them than the budget pays for, unless a vector costs nothing.
proof fn budget_pays(req: RequestView, vectors: nat)
    requires
        vectors <= req.core_vectors() + req.spare_vectors(),
    ensures
        vectors <= usize::MAX,
        req.tokens_per_vector > 0 ==> vectors <= req.budget_vectors(),
        vectors * req.tokens_per_vector as nat <= req.token_budget,
{
    let d = req.tokens_per_vector as nat;
    let t = req.token_budget as nat;
    assert(req.budget_vectors() <= t) by (nonlinear_arith)
        requires
            req.budget_vectors() == t / (if d == 0 {
                1
            } else {
                d
            }),
    ;
    if d > 0 && d <= t {
        assert(t / d >= 1) by (nonlinear_arith)
            requires
                0 < d <= t,
        ;
    } else if d > t {
        assert(t / d == 0) by (nonlinear_arith)
            requires
                0 <= t < d,
        ;
    }
    if d == 0 {
        assert(vectors * d == 0) by (nonlinear_arith)
            requires
                d == 0,
        ;
    } else {
        assert(vectors * d <= (t / d) * d) by (nonlinear_arith)
            requires
                vectors <= t / d,
                d > 0,
        ;
        assert((t / d) * d <= t) by (nonlinear_arith)
            requires
                d > 0,
                t >= 0,
        ;
    }
}

/// `EVOKE`: resolves the essence of a subject within the token budget.
///
/// The budget goes to the core first, then to the arc, which is the signature of the subject over
/// time, then to anomalies. Returns `None` if the subject has no live archetype.
pub fn evoke<A: Arithmetic>(
    arith: &A,
    store: &ArchetypeStore,
    req: &EvokeRequest,
    now: Tick,
) -> (r: Option<CompressedContext>)
    requires
        arithmetic::lawful(*arith),
        capacity::about_countable(store@, req@.subject),
    ensures
        match r {
            Some(c) => evoked(*arith, store@, req@, now) == Some(c@),
            None => evoked(*arith, store@, req@, now) is None,
        },
        r is Some ==> r->0.token_estimate <= req.token_budget,
{
    let a: &Archetype = match store.get(req.subject.as_str()) {
        Some(a) => a,
        None => {
            return None;
        },
    };
    proof {
        let i = archetype::place_of(store@, req@.subject)->0;
        assert(archetype::first_about(store@, req@.subject, i));
        assert(capacity::arc_countable(store@[i].arc));
    }
    if a.trace.is_faded(arith, now, Double { bits: DEFAULT_THETA_FADE }) {
        return None;
    }
    let per_vector: usize = if req.tokens_per_vector == 0 {
        1
    } else {
        req.tokens_per_vector
    };
    let budget_vectors: usize = req.token_budget / per_vector;
    let core_vectors: usize = if req.tokens_per_vector <= req.token_budget {
        1
    } else {
        0
    };
    let left: usize = budget_vectors.saturating_sub(core_vectors);
    let base_quota: usize = left / 3 * 2 + left % 3 * 2 / 3;
    assert(base_quota == (left as nat) * 2 / 3) by (nonlinear_arith)
        requires
            base_quota == left / 3 * 2 + left % 3 * 2 / 3,
    ;
    let arc_quota: usize = match req.arc_detail {
        ArcDetail::Omitted => 0,
        ArcDetail::Summary => if base_quota <= 4 {
            base_quota
        } else {
            4
        },
        ArcDetail::Full => base_quota,
    };
    assert(arc_quota == req@.arc_quota());
    let (arc_points, arc_labels, arc_label_histograms) = arc_signature(
        arith,
        a,
        arc_quota,
        req.since,
    );
    let arc_count: usize = arc_points.len();
    proof {
        returned_within_quota(a@.arc, arc_quota as nat, req.since);
    }
    let room: usize = left - arc_count;
    let anomalies_included: usize = if a.anomalies.len() <= room {
        a.anomalies.len()
    } else {
        room
    };
    let mut anomaly_labels: Vec<String> = Vec::new();
    let mut i: usize = 0;
    while i < a.anomaly_labels.len() && i < anomalies_included
        invariant
            i <= a.anomaly_labels.len(),
            i <= anomalies_included,
            anomaly_labels.len() == i,
            forall|j: int|
                0 <= j < i ==> (#[trigger] anomaly_labels@[j])@ == a.anomaly_labels@[j]@,
        decreases a.anomaly_labels.len() - i,
    {
        anomaly_labels.push(a.anomaly_labels[i].clone());
        i += 1;
    }
    proof {
        assert(text::texts_of(anomaly_labels@) =~= a@.anomaly_labels.take(
            ranking::at_most(a@.anomaly_labels.len(), anomalies_included as nat) as int,
        ));
    }
    proof {
        budget_pays(req@, core_vectors as nat + arc_count as nat + anomalies_included as nat);
    }
    let vectors_returned: usize = core_vectors + arc_count + anomalies_included;
    let token_estimate: usize = vectors_returned * req.tokens_per_vector;
    let domain_arcs: Vec<(String, Vector)> = if req.arc_detail == ArcDetail::Omitted {
        let none: Vec<(String, Vector)> = Vec::new();
        assert(series_of(none@) =~= Seq::empty());
        none
    } else {
        domain_trajectories(
            arith,
            a,
            if budget_vectors == 0 {
                1
            } else {
                budget_vectors
            },
            req.since,
        )
    };
    let drifts = mode_drifts(arith, a, now);
    let context = CompressedContext {
        subject: a.subject.clone(),
        represented: a.represented,
        vectors_returned,
        anomalies_included,
        arc_points,
        core_label: a.core_label.clone(),
        arc_labels,
        anomaly_labels,
        domain_arcs,
        arc_label_histograms,
        token_estimate,
        resonating_mode: None,
        mode_drifts: drifts,
    };
    assert(context@ =~= context_of(*arith, a@, req@, now));
    Some(context)
}

/// Estimates the tokens of a text by its words: maximal runs of characters that are not white space.
pub fn approx_token_count(text: &str) -> (r: usize)
    ensures
        r == text::words(text@),
{
    text::count_words(text)
}

/// Character and exact facts, gathered by one evocation under one budget.
#[derive(Debug)]
pub struct UnifiedContext {
    /// The essence; `None` if there is no live archetype, or the facts left no budget for it.
    pub gist: Option<CompressedContext>,
    /// The exact facts, best first.
    pub facts: Vec<RecalledFact>,
    /// Tokens of the facts.
    pub fact_tokens: usize,
    /// Tokens of the whole block, at most the budget.
    pub total_tokens: usize,
}

/// What a unified context holds.
#[verifier::ext_equal]
pub struct UnifiedView {
    pub gist: Option<ContextView>,
    pub facts: Seq<RecalledView>,
    pub fact_tokens: usize,
    pub total_tokens: usize,
}

/// What an optional context holds.
pub open spec fn context_in(c: Option<CompressedContext>) -> Option<ContextView> {
    match c {
        Some(c) => Some(c@),
        None => None,
    }
}

impl View for UnifiedContext {
    type V = UnifiedView;

    open spec fn view(&self) -> UnifiedView {
        UnifiedView {
            gist: context_in(self.gist),
            facts: factstore::recalls_of(self.facts@),
            fact_tokens: self.fact_tokens,
            total_tokens: self.total_tokens,
        }
    }
}

/// `cost` is an answer of a pricing on a text that holds `text`.
pub open spec fn priced<F: Fn(&str) -> usize>(pricing: F, text: Seq<char>, cost: usize) -> bool {
    exists|t: &str| t@ == text && #[trigger] call_ensures(pricing, (t,), cost)
}

/// The pricing can be asked for the facts at some places.
pub open spec fn payable<F: Fn(&str) -> usize>(
    pricing: F,
    s: Seq<FactView>,
    at: Seq<int>,
) -> bool {
    forall|t: &str, j: int|
        0 <= j < at.len() && t@ == s[#[trigger] at[j]].text ==> #[trigger] call_requires(
            pricing,
            (t,),
        )
}

/// `costs` are answers of the pricing for the facts at some places: one for each, and texts that are
/// the same may cost differently.
pub open spec fn priced_at<F: Fn(&str) -> usize>(
    pricing: F,
    s: Seq<FactView>,
    at: Seq<int>,
    costs: Seq<usize>,
) -> bool {
    costs.len() == at.len() && forall|j: int|
        0 <= j < at.len() ==> priced(pricing, s[at[j]].text, #[trigger] costs[j])
}

/// The places of the live facts about the subject of a request, best first.
pub open spec fn offers<A: Arithmetic>(
    arith: A,
    facts: Seq<FactView>,
    req: RequestView,
    query: Seq<Single>,
    now: Tick,
) -> Seq<int> {
    factstore::hits(
        arith,
        facts,
        req.subject,
        query,
        facts.len(),
        now,
        Double { bits: DEFAULT_THETA_FADE },
    )
}

/// What is spent on the first costs, each taken where the budget still covers it.
pub open spec fn spent(costs: Seq<usize>, budget: nat) -> nat
    decreases costs.len(),
{
    if costs.len() == 0 {
        0
    } else {
        let before = spent(costs.drop_last(), budget);
        if before + costs.last() <= budget {
            before + costs.last() as nat
        } else {
            before
        }
    }
}

/// Which of the costs are taken, each where the budget still covers it.
pub open spec fn taken(costs: Seq<usize>, budget: nat) -> Seq<int>
    decreases costs.len(),
{
    if costs.len() == 0 {
        Seq::empty()
    } else {
        let before = taken(costs.drop_last(), budget);
        if spent(costs.drop_last(), budget) + costs.last() <= budget {
            before.push(costs.len() - 1)
        } else {
            before
        }
    }
}

/// The places of the facts that a unified evocation takes: by score, each where the budget for
/// facts still covers it.
pub open spec fn taken_places(at: Seq<int>, costs: Seq<usize>, budget: nat) -> Seq<int> {
    let picks = taken(costs, budget);
    Seq::new(picks.len(), |j: int| at[picks[j]])
}

/// What a unified evocation returns, where the facts that it considers cost `costs`: facts first, then
/// the essence with what they leave, if that covers a vector.
pub open spec fn unified<A: Arithmetic>(
    arith: A,
    archetypes: Seq<ArchetypeView>,
    facts: Seq<FactView>,
    req: RequestView,
    query: Seq<Single>,
    fact_budget: usize,
    now: Tick,
    costs: Seq<usize>,
) -> UnifiedView {
    let budget = ranking::at_most(fact_budget as nat, req.token_budget as nat);
    let at = offers(arith, facts, req, query, now);
    let fact_tokens = spent(costs, budget);
    let left = (req.token_budget - fact_tokens) as usize;
    let gist = if left >= req.tokens_per_vector {
        evoked(arith, archetypes, (RequestView { token_budget: left, ..req }), now)
    } else {
        None
    };
    UnifiedView {
        gist,
        facts: factstore::recalled_at(
            arith,
            facts,
            taken_places(at, costs, budget),
            query,
            now,
        ),
        fact_tokens: fact_tokens as usize,
        total_tokens: (fact_tokens + (match gist {
            Some(g) => g.token_estimate as nat,
            None => 0,
        })) as usize,
    }
}

proof fn spent_within(costs: Seq<usize>, budget: nat)
    ensures
        spent(costs, budget) <= budget,
    decreases costs.len(),
{
    if costs.len() > 0 {
        spent_within(costs.drop_last(), budget);
    }
}

/// Unified `EVOKE`: shares one budget between exact facts and the essence.
///
/// `fact_budget`, at most the whole budget, is reserved for facts, which are taken by score while
/// their price fits. The essence gets the rest, if that covers at least one vector. Nothing is
/// reinforced.
pub fn evoke_unified<A: Arithmetic, F: Fn(&str) -> usize>(
    arith: &A,
    archetypes: &ArchetypeStore,
    facts: &FactStore,
    req: &EvokeRequest,
    query: &Vector,
    fact_budget: usize,
    now: Tick,
    fact_cost: &F,
) -> (r: UnifiedContext)
    requires
        arithmetic::lawful(*arith),
        capacity::about_countable(archetypes@, req@.subject),
        payable(*fact_cost, facts@, offers(*arith, facts@, req@, query@, now)),
    ensures
        exists|costs: Seq<usize>| #[trigger]
            priced_at(
                *fact_cost,
                facts@,
                offers(*arith, facts@, req@, query@, now),
                costs,
            ) && r@ == unified(
                *arith,
                archetypes@,
                facts@,
                req@,
                query@,
                fact_budget,
                now,
                costs,
            ),
        r.total_tokens <= req.token_budget,
{
    let budget: usize = if fact_budget <= req.token_budget {
        fact_budget
    } else {
        req.token_budget
    };
    let ranked = facts.search(
        arith,
        req.subject.as_str(),
        query,
        facts.len(),
        now,
        Double { bits: DEFAULT_THETA_FADE },
    );
    let ghost at = offers(*arith, facts@, req@, query@, now);
    let ghost mut costs: Seq<usize> = Seq::empty();
    let mut chosen: Vec<RecalledFact> = Vec::new();
    let mut fact_tokens: usize = 0;
    let mut i: usize = 0;
    proof {
        assert(factstore::recalls_of(chosen@) =~= factstore::recalled_at(
            *arith,
            facts@,
            taken_places(at, costs, budget as nat),
            query@,
            now,
        ));
    }
    while i < ranked.len()
        invariant
            payable(*fact_cost, facts@, at),
            i <= ranked.len(),
            ranked.len() == at.len(),
            costs.len() == i,
            forall|j: int|
                0 <= j < i ==> priced(*fact_cost, facts@[at[j]].text, #[trigger] costs[j]),
            forall|j: int|
                0 <= j < ranked.len() ==> (#[trigger] ranked@[j]).1@ == facts@[at[j]]
                    && ranked@[j].0 == facts@[at[j]].score(*arith, query@, now),
            fact_tokens == spent(costs, budget as nat),
            fact_tokens <= budget,
            factstore::recalls_of(chosen@) == factstore::recalled_at(
                *arith,
                facts@,
                taken_places(at, costs, budget as nat),
                query@,
                now,
            ),
        decreases ranked.len() - i,
    {
        let (score, f) = ranked[i];
        proof {
            assert(ranked@[i as int].1@ == facts@[at[i as int]]);
        }
        let cost: usize = fact_cost(f.text.as_str());
        let ghost prior = costs;
        proof {
            costs = costs.push(cost);
            assert(priced(*fact_cost, f.text@, cost));
            assert forall|j: int| 0 <= j < i + 1 implies priced(
                *fact_cost,
                facts@[at[j]].text,
                #[trigger] costs[j],
            ) by {
                if j < i {
                    assert(costs[j] == prior[j]);
                }
            }
            assert(costs.drop_last() =~= prior);
        }
        let ghost had = factstore::recalls_of(chosen@);
        if cost <= budget - fact_tokens {
            fact_tokens += cost;
            chosen.push(
                RecalledFact {
                    text: f.text.clone(),
                    provenance: f.provenance.clone(),
                    score,
                },
            );
            proof {
                let next = taken_places(at, costs, budget as nat);
                assert(next =~= taken_places(at, prior, budget as nat).push(at[i as int]));
                let entry = RecalledView { text: f@.text, provenance: f@.provenance, score };
                assert(factstore::recalls_of(chosen@) =~= had.push(entry));
                assert(factstore::recalled_at(*arith, facts@, next, query@, now) =~= had.push(
                    entry,
                ));
            }
        }
        i += 1;
    }
    proof {
        spent_within(costs, budget as nat);
        assert(priced_at(*fact_cost, facts@, at, costs));
    }
    let gist_budget: usize = req.token_budget - fact_tokens;
    let gist: Option<CompressedContext> = if gist_budget >= req.tokens_per_vector {
        let gist_req = EvokeRequest {
            subject: req.subject.clone(),
            token_budget: gist_budget,
            since: req.since,
            arc_detail: req.arc_detail,
            tokens_per_vector: req.tokens_per_vector,
        };
        assert(gist_req@ == (RequestView { token_budget: gist_budget, ..req@ }));
        evoke(arith, archetypes, &gist_req, now)
    } else {
        None
    };
    let gist_tokens: usize = match &gist {
        Some(g) => g.token_estimate,
        None => 0,
    };
    UnifiedContext { gist, facts: chosen, fact_tokens, total_tokens: fact_tokens + gist_tokens }
}

/// The context of an evocation never exceeds the token budget, and is made of the core, the returned
/// milestones and the included anomalies; labels and histograms are those of the milestones. The core
/// is there wherever the budget covers it.
pub proof fn evocation_fits_the_budget<A: Arithmetic>(
    arith: A,
    a: ArchetypeView,
    req: RequestView,
    now: Tick,
)
    ensures
        ({
            let c = context_of(arith, a, req, now);
            &&& c.token_estimate <= req.token_budget
            &&& c.token_estimate == c.vectors_returned * req.tokens_per_vector
            &&& c.vectors_returned == req.core_vectors() + c.arc_points.len()
                + c.anomalies_included
            &&& req.tokens_per_vector <= req.token_budget ==> c.vectors_returned >= 1
            &&& req.tokens_per_vector > 0 ==> c.vectors_returned <= req.budget_vectors()
            &&& c.arc_points.len() == c.arc_labels.len()
            &&& c.arc_points.len() == c.arc_label_histograms.len()
            &&& c.anomalies_included <= a.anomalies.len()
            &&& c.anomaly_labels.len() <= c.anomalies_included
            &&& c.represented == a.represented
        }),
{
    let ms = returned_milestones(a.arc, req.arc_quota(), req.since);
    returned_within_quota(a.arc, req.arc_quota(), req.since);
    let anomalies = ranking::at_most(
        a.anomalies.len(),
        (req.spare_vectors() - ms.len()) as nat,
    );
    let vectors = req.core_vectors() + ms.len() + anomalies;
    budget_pays(req, vectors);
}

/// Resolution: no arc where none is wanted, at most four milestones in a summary, and never more
/// milestones in a summary than in the full arc.
pub proof fn detail_limits_the_arc<A: Arithmetic>(
    arith: A,
    a: ArchetypeView,
    req: RequestView,
    now: Tick,
)
    ensures
        ({
            let full = context_of(arith, a, (RequestView { arc_detail: ArcDetail::Full, ..req }), now);
            let summary = context_of(
                arith,
                a,
                (RequestView { arc_detail: ArcDetail::Summary, ..req }),
                now,
            );
            let point = context_of(
                arith,
                a,
                (RequestView { arc_detail: ArcDetail::Omitted, ..req }),
                now,
            );
            &&& point.arc_points.len() == 0
            &&& point.domain_arcs.len() == 0
            &&& summary.arc_points.len() <= 4
            &&& summary.arc_points.len() <= full.arc_points.len()
        }),
{
}

/// Only milestones of the requested window are returned.
pub proof fn window_filters_old_milestones<A: Arithmetic>(
    arith: A,
    a: ArchetypeView,
    req: RequestView,
    now: Tick,
    i: int,
)
    requires
        req.since is Some,
        0 <= i < context_of(arith, a, req, now).arc_points.len(),
    ensures
        req.since->0.at_most(context_of(arith, a, req, now).arc_points[i].0),
{
    broadcast use vstd::seq_lib::group_filter_ensures;

    let window = window_of(a.arc, req.since);
    let at = thinned(window.len(), req.arc_quota());
    thinning_spans_the_window(window.len(), req.arc_quota());
    assert(0 <= at[i] < window.len());
    assert(recent(req.since)(window[at[i]]));
}

/// Thinning keeps the order of the milestones and picks none twice; with room for two or more it
/// keeps the first and the last.
pub proof fn thinning_spans_the_window(n: nat, quota: nat)
    ensures
        thinned(n, quota).len() == ranking::at_most(n, quota),
        forall|i: int|
            0 <= i < thinned(n, quota).len() ==> 0 <= #[trigger] thinned(n, quota)[i] < n,
        forall|i: int, j: int|
            0 <= i < j < thinned(n, quota).len() ==> #[trigger] thinned(n, quota)[i]
                < #[trigger] thinned(n, quota)[j],
        n > 0 && quota > 0 ==> thinned(n, quota)[0] == 0,
        n >= 2 && quota >= 2 ==> thinned(n, quota).last() == n - 1,
{
    let at = thinned(n, quota);
    if n > quota {
        if quota >= 2 {
            let d = quota - 1;
            assert forall|i: int| 0 <= i < at.len() implies 0 <= #[trigger] at[i] < n by {
                assert(0 <= (i * (n - 1)) / d < n) by (nonlinear_arith)
                    requires
                        0 <= i <= d,
                        d > 0,
                        n >= 1,
                ;
            }
            assert forall|i: int, j: int| 0 <= i < j < at.len() implies #[trigger] at[i]
                < #[trigger] at[j] by {
                assert((i * (n - 1)) / d < (j * (n - 1)) / d) by (nonlinear_arith)
                    requires
                        0 <= i < j,
                        d > 0,
                        n - 1 >= d,
                ;
            }
            assert((0 * (n - 1)) / d == 0) by (nonlinear_arith)
                requires
                    d > 0,
            ;
            assert((d * (n - 1)) / d == n - 1) by (nonlinear_arith)
                requires
                    d > 0,
            ;
        } else if quota == 1 {
            assert((0 * (n - 1)) / 1 == 0) by (nonlinear_arith);
        }
    }
}

/// A unified evocation stays within its one budget, facts within theirs, and the total is what the
/// facts and the essence take together, whatever the facts cost.
pub proof fn unified_fits_the_budget<A: Arithmetic>(
    arith: A,
    archetypes: Seq<ArchetypeView>,
    facts: Seq<FactView>,
    req: RequestView,
    query: Seq<Single>,
    fact_budget: usize,
    now: Tick,
    costs: Seq<usize>,
)
    ensures
        ({
            let u = unified(arith, archetypes, facts, req, query, fact_budget, now, costs);
            &&& u.total_tokens <= req.token_budget
            &&& u.fact_tokens <= fact_budget
            &&& u.total_tokens == u.fact_tokens + (match u.gist {
                Some(g) => g.token_estimate as int,
                None => 0,
            })
        }),
{
    let budget = ranking::at_most(fact_budget as nat, req.token_budget as nat);
    spent_within(costs, budget);
    let left = (req.token_budget - spent(costs, budget)) as usize;
    let gist_req = RequestView { token_budget: left, ..req };
    match archetype::place_of(archetypes, req.subject) {
        Some(i) => {
            evocation_fits_the_budget(arith, archetypes[i], gist_req, now);
        },
        None => {},
    }
}

/// Each milestone that an evocation returns says when it was and how far the subject had drifted since
/// the first milestone of all: one less its cosine to it, as the arithmetic answers.
pub proof fn drift_is_measured_from_the_first_milestone<A: Arithmetic>(
    arith: A,
    a: ArchetypeView,
    req: RequestView,
    now: Tick,
    i: int,
    cosine: Single,
    drift: Single,
)
    requires
        arithmetic::lawful(arith),
        0 <= i < context_of(arith, a, req, now).arc_points.len(),
        ({
            let m = returned_milestones(a.arc, req.arc_quota(), req.since)[i];
            arithmetic::resembles(arith, m.direction, a.arc[0].direction, cosine)
        }),
        call_ensures(A::sub32, (&arith, Single { bits: 0x3f80_0000 }, cosine), drift),
    ensures
        context_of(arith, a, req, now).arc_points[i].1 == drift,
        context_of(arith, a, req, now).arc_points[i].0 == returned_milestones(
            a.arc,
            req.arc_quota(),
            req.since,
        )[i].at,
{
    reveal(arithmetic::lawful);
}

/// Drift is never negative; a milestone whose cosine to the first is one has not drifted; and of two the
/// one that resembles the first less has drifted no less.
pub proof fn drift_grows_as_the_subject_moves_away<A: Arithmetic>(
    arith: A,
    a: ArchetypeView,
    req: RequestView,
    now: Tick,
    near: int,
    far: int,
)
    requires
        arithmetic::orderly(arith),
        0 <= near < context_of(arith, a, req, now).arc_points.len(),
        0 <= far < context_of(arith, a, req, now).arc_points.len(),
    ensures
        ({
            let points = context_of(arith, a, req, now).arc_points;
            let ms = returned_milestones(a.arc, req.arc_quota(), req.since);
            let origin = a.arc[0].direction;
            let x = arithmetic::similarity(arith, ms[near].direction, origin);
            let y = arithmetic::similarity(arith, ms[far].direction, origin);
            &&& Single::nought().at_most(points[near].1)
            &&& x.bits == 0x3f80_0000 ==> points[near].1.same(Single::nought())
            &&& y.at_most(x) ==> points[near].1.at_most(points[far].1)
        }),
{
    let one = Single { bits: ONE_SINGLE };
    assert(one.finite());
}

/// The first milestone of an arc has not drifted from itself, wherever its direction resembles itself
/// wholly.
pub proof fn the_first_milestone_has_not_drifted<A: Arithmetic>(
    arith: A,
    a: ArchetypeView,
    req: RequestView,
    now: Tick,
)
    requires
        arithmetic::orderly(arith),
        req.since is None,
        context_of(arith, a, req, now).arc_points.len() > 0,
        arithmetic::similarity(arith, a.arc[0].direction, a.arc[0].direction).bits == 0x3f80_0000,
    ensures
        context_of(arith, a, req, now).arc_points[0].0 == a.arc[0].at,
        context_of(arith, a, req, now).arc_points[0].1.same(Single::nought()),
{
    windows_are_exact(a.arc, None);
    let n = window_of(a.arc, None).len();
    thinning_spans_the_window(n, req.arc_quota());
    assert(returned_milestones(a.arc, req.arc_quota(), req.since)[0] == a.arc[0]);
    drift_grows_as_the_subject_moves_away(arith, a, req, now, 0, 0);
}

/// A window holds exactly the milestones from its tick on; without a tick, the whole arc as it is.
pub proof fn windows_are_exact(arc: Seq<MilestoneView>, since: Option<Tick>)
    ensures
        since is None ==> window_of(arc, since) == arc,
        since is Some ==> forall|m: MilestoneView| #[trigger]
            window_of(arc, since).contains(m) <==> arc.contains(m) && since->0.at_most(m.at),
{
    if since is None {
        selection::filter_settles(arc, recent(since));
    } else {
        assert forall|m: MilestoneView| #[trigger] window_of(arc, since).contains(m)
            <==> arc.contains(m) && since->0.at_most(m.at) by {
            selection::filter_members(arc, recent(since), m);
        }
    }
}

/// Milestones are thinned evenly: where not all can be returned, the `i`-th of `quota` stands as far
/// along the window as `i` does along the quota, rounded down.
pub proof fn thinning_is_even(n: nat, quota: nat, i: int)
    requires
        0 <= i < thinned(n, quota).len(),
    ensures
        n <= quota ==> thinned(n, quota)[i] == i,
        n > quota && quota >= 2 ==> thinned(n, quota)[i] * (quota - 1) <= i * (n - 1) && i * (n - 1)
            < (thinned(n, quota)[i] + 1) * (quota - 1),
{
    if n > quota && quota >= 2 {
        let d = quota - 1;
        let x = i * (n - 1);
        assert((x / d) * d <= x && x < (x / d + 1) * d) by (nonlinear_arith)
            requires
                d > 0,
        ;
    }
}

/// What each returned milestone says is what that milestone was: its tick, its label, its histogram. The
/// returned ones are those of the window that thinning picks.
pub proof fn returned_milestones_are_faithful<A: Arithmetic>(
    arith: A,
    a: ArchetypeView,
    req: RequestView,
    now: Tick,
    i: int,
)
    requires
        0 <= i < context_of(arith, a, req, now).arc_points.len(),
    ensures
        ({
            let c = context_of(arith, a, req, now);
            let window = window_of(a.arc, req.since);
            let m = window[thinned(window.len(), req.arc_quota())[i]];
            &&& c.arc_points[i].0 == m.at
            &&& c.arc_labels[i] == m.label
            &&& c.arc_label_histograms[i] == m.label_histogram
            &&& a.arc.contains(m)
        }),
{
    let window = window_of(a.arc, req.since);
    thinning_spans_the_window(window.len(), req.arc_quota());
    let m = window[thinned(window.len(), req.arc_quota())[i]];
    assert(window.contains(m));
    selection::filter_members(a.arc, recent(req.since), m);
}

/// The budget is spent in order: the core first, if it can be paid at all; then two thirds of what is
/// left, rounded down, on the arc, or less where the window is shorter or a summary is wanted; then the
/// rest on anomalies, the oldest first. A vector that costs nothing is counted as if it cost one token.
pub proof fn budgets_are_spent_in_order<A: Arithmetic>(
    arith: A,
    a: ArchetypeView,
    req: RequestView,
    now: Tick,
)
    requires
        req.token_budget > 0,
        req.token_budget >= req.tokens_per_vector,
    ensures
        ({
            let c = context_of(arith, a, req, now);
            let paid = if req.tokens_per_vector == 0 {
                req.token_budget as int
            } else {
                req.token_budget as int / req.tokens_per_vector as int
            };
            let left = paid - 1;
            let window = window_of(a.arc, req.since).len();
            let arc = c.arc_points.len();
            &&& c.vectors_returned == 1 + arc + c.anomalies_included
            &&& c.vectors_returned <= paid
            &&& 3 * arc <= 2 * left
            &&& arc <= window
            &&& req.arc_detail == ArcDetail::Full && arc < window ==> 3 * (arc + 1) > 2 * left
            &&& req.arc_detail == ArcDetail::Summary ==> arc <= 4
            &&& req.arc_detail == ArcDetail::Summary && arc < window && arc < 4 ==> 3 * (arc + 1) > 2
                * left
            &&& req.arc_detail == ArcDetail::Omitted ==> arc == 0
            &&& c.anomalies_included <= a.anomalies.len()
            &&& c.anomalies_included < a.anomalies.len() ==> c.vectors_returned == paid
        }),
{
    let window = window_of(a.arc, req.since).len();
    thinning_spans_the_window(window, req.arc_quota());
    evocation_fits_the_budget(arith, a, req, now);
    if req.tokens_per_vector > 0 {
        assert(req.budget_vectors() >= 1) by (nonlinear_arith)
            requires
                req.tokens_per_vector > 0,
                req.token_budget >= req.tokens_per_vector,
                req.budget_vectors() == req.token_budget as nat / req.tokens_per_vector as nat,
        ;
    } else {
        assert(req.budget_vectors() == req.token_budget);
    }
    let ms = returned_milestones(a.arc, req.arc_quota(), req.since);
    let anomalies = ranking::at_most(
        a.anomalies.len(),
        (req.spare_vectors() - ms.len()) as nat,
    );
    budget_pays(req, req.core_vectors() + ms.len() + anomalies);
}

/// Who the subject is now: the context names the subject, its current behaviour, and how much it
/// represents, as the archetype has them; the labels of the anomalies are the first ones; nothing is in
/// focus yet.
pub proof fn contexts_name_the_current_behaviour<A: Arithmetic>(
    arith: A,
    a: ArchetypeView,
    req: RequestView,
    now: Tick,
    j: int,
)
    ensures
        ({
            let c = context_of(arith, a, req, now);
            &&& c.subject == a.subject
            &&& c.core_label == a.core_label
            &&& c.represented == a.represented
            &&& c.resonating_mode is None
            &&& a.anomaly_labels.len() == a.anomalies.len() ==> c.anomaly_labels.len()
                == c.anomalies_included
            &&& 0 <= j < c.anomaly_labels.len() ==> c.anomaly_labels[j] == a.anomaly_labels[j]
        }),
{
    returned_within_quota(a.arc, req.arc_quota(), req.since);
    evocation_fits_the_budget(arith, a, req, now);
    let ms = returned_milestones(a.arc, req.arc_quota(), req.since);
    let anomalies = ranking::at_most(
        a.anomalies.len(),
        (req.spare_vectors() - ms.len()) as nat,
    );
    budget_pays(req, req.core_vectors() + ms.len() + anomalies);
}

/// The modes that a context shows are those that weigh the forgetting threshold or more, in their order,
/// each with its label and its drift.
pub proof fn living_modes_are_shown<A: Arithmetic>(
    arith: A,
    a: ArchetypeView,
    req: RequestView,
    now: Tick,
)
    ensures
        ({
            let shown = context_of(arith, a, req, now).mode_drifts;
            let at = selection::places(
                a.modes,
                |m: ModeView|
                    (Double { bits: DEFAULT_THETA_FADE }).at_most(m.trace.life(arith, now)),
            );
            &&& shown.len() == at.len()
            &&& forall|j: int|
                0 <= j < at.len() ==> #[trigger] shown[j] == (
                    a.modes[at[j]].label,
                    a.modes[at[j]].drifted(arith),
                )
        }),
{
    let kept = |m: ModeView| (Double { bits: DEFAULT_THETA_FADE }).at_most(m.trace.life(arith, now));
    assert(kept =~= living_modes(arith, now));
    selection::filter_is_by_places(a.modes, kept);
    let shown = context_of(arith, a, req, now).mode_drifts;
    let at = selection::places(a.modes, kept);
    assert forall|j: int| 0 <= j < at.len() implies #[trigger] shown[j] == (
        a.modes[at[j]].label,
        a.modes[at[j]].drifted(arith),
    ) by {
        assert(a.modes.filter(kept)[j] == a.modes[at[j]]);
    }
}

/// The behaviours whose trajectories are shown: each occurs in the window, none twice, the more prominent
/// first and of equals the first in the dictionary; none that occurs and is left out is more prominent
/// than one that is shown, and one is left out only where the number is exhausted. Each trajectory has
/// the share of the behaviour at each milestone.
pub proof fn trajectories_show_the_prominent<A: Arithmetic>(
    arith: A,
    ms: Seq<MilestoneView>,
    max: nat,
)
    ensures
        ({
            let shown = trajectories(arith, ms, max);
            let weight = |l: Seq<char>|
                trajectory::prominence(arith, trajectory::shares(arith, ms, l)).key();
            &&& shown.len() <= max
            &&& forall|i: int|
                0 <= i < shown.len() ==> trajectory::occurs(ms, (#[trigger] shown[i]).0)
                    && shown[i].1 == trajectory::shares(arith, ms, shown[i].0)
            &&& forall|i: int, j: int|
                0 <= i < j < shown.len() ==> weight((#[trigger] shown[i]).0) >= weight(
                    (#[trigger] shown[j]).0,
                ) && (weight(shown[i].0) == weight(shown[j].0) ==> text::before(
                    shown[i].0,
                    shown[j].0,
                ))
            &&& forall|l: Seq<char>, i: int|
                #[trigger] trajectory::occurs(ms, l) && 0 <= i < shown.len() && (forall|j: int|
                    0 <= j < shown.len() ==> (#[trigger] shown[j]).0 != l) ==> weight(l) <= weight(
                    (#[trigger] shown[i]).0,
                )
            &&& shown.len() < max ==> forall|l: Seq<char>| #[trigger]
                trajectory::occurs(ms, l) ==> exists|j: int|
                    0 <= j < shown.len() && (#[trigger] shown[j]).0 == l
        }),
{
    domains_are_listed(arith, ms);
    let labels = domains_in_order(arith, ms);
    let order = domain_order(arith, ms);
    let shown = trajectories(arith, ms, max);
    let weight = |l: Seq<char>|
        trajectory::prominence(arith, trajectory::shares(arith, ms, l)).key();
    assert forall|i: int| 0 <= i < shown.len() implies trajectory::occurs(ms, (#[trigger] shown[i]).0)
        && shown[i].1 == trajectory::shares(arith, ms, shown[i].0) by {
        assert(trajectory::occurring(ms)(labels[i]));
    }
    assert forall|i: int, j: int| 0 <= i < j < shown.len() implies weight((#[trigger] shown[i]).0)
        >= weight((#[trigger] shown[j]).0) && (weight(shown[i].0) == weight(shown[j].0)
        ==> text::before(shown[i].0, shown[j].0)) by {
        assert(order(labels[i], labels[j]));
    }
    assert forall|l: Seq<char>, i: int|
        #[trigger] trajectory::occurs(ms, l) && 0 <= i < shown.len() && (forall|j: int|
            0 <= j < shown.len() ==> (#[trigger] shown[j]).0 != l) implies weight(l) <= weight(
        (#[trigger] shown[i]).0,
    ) by {
        assert(trajectory::occurring(ms)(l));
        let k = choose|k: int| 0 <= k < labels.len() && labels[k] == l;
        if k < shown.len() {
            assert(shown[k].0 == l);
        }
        assert(order(labels[i], labels[k]));
    }
    if shown.len() < max {
        assert forall|l: Seq<char>| #[trigger] trajectory::occurs(ms, l) implies exists|j: int|
            0 <= j < shown.len() && (#[trigger] shown[j]).0 == l by {
            assert(trajectory::occurring(ms)(l));
            let k = choose|k: int| 0 <= k < labels.len() && labels[k] == l;
            assert(shown[k].0 == l);
        }
    }
}

/// An evocation of an arc shows the trajectories of the window, as many as the budget pays vectors for and
/// at least one; of the current state alone it shows none.
pub proof fn contexts_show_the_trajectories_of_the_window<A: Arithmetic>(
    arith: A,
    a: ArchetypeView,
    req: RequestView,
    now: Tick,
)
    requires
        req.tokens_per_vector > 0,
    ensures
        ({
            let paid = req.token_budget as nat / req.tokens_per_vector as nat;
            let shown = context_of(arith, a, req, now).domain_arcs;
            &&& req.arc_detail == ArcDetail::Omitted ==> shown.len() == 0
            &&& req.arc_detail != ArcDetail::Omitted && paid > 0 ==> shown == trajectories(
                arith,
                window_of(a.arc, req.since),
                paid,
            )
            &&& req.arc_detail != ArcDetail::Omitted && paid == 0 ==> shown == trajectories(
                arith,
                window_of(a.arc, req.since),
                1,
            )
        }),
{
}

/// Whom an evocation answers for: a subject whose archetype weighs the forgetting threshold or more is
/// answered with what that archetype holds; one that has none, or whose archetype weighs less, is not.
pub proof fn only_the_living_are_evoked<A: Arithmetic>(
    arith: A,
    s: Seq<ArchetypeView>,
    req: RequestView,
    now: Tick,
)
    ensures
        (forall|j: int| 0 <= j < s.len() ==> (#[trigger] s[j]).subject != req.subject) ==> evoked(
            arith,
            s,
            req,
            now,
        ) is None,
        forall|i: int|
            {
                &&& 0 <= i < s.len()
                &&& (#[trigger] s[i]).subject == req.subject
                &&& forall|j: int| 0 <= j < i ==> (#[trigger] s[j]).subject != req.subject
            } ==> evoked(arith, s, req, now) == if s[i].trace.life(arith, now).below(
                Double { bits: 0x3fa9_9999_9999_999a },
            ) {
                None
            } else {
                Some(context_of(arith, s[i], req, now))
            },
{
    archetype::subjects_have_their_first_archetype(s, req.subject);
    assert forall|i: int|
        {
            &&& 0 <= i < s.len()
            &&& (#[trigger] s[i]).subject == req.subject
            &&& forall|j: int| 0 <= j < i ==> (#[trigger] s[j]).subject != req.subject
        } implies evoked(arith, s, req, now) == if s[i].trace.life(arith, now).below(
        Double { bits: 0x3fa9_9999_9999_999a },
    ) {
        None
    } else {
        Some(context_of(arith, s[i], req, now))
    } by {
        let k = archetype::place_of(s, req.subject)->0;
        if k < i {
            assert(s[k].subject != req.subject);
        }
        if i < k {
            assert(s[i].subject != req.subject);
        }
    }
}

/// Facts are bought by score: each that the budget for facts still covers is taken, each that it does
/// not is passed over, and what is spent is what those taken cost.
pub proof fn facts_are_bought_while_they_fit(costs: Seq<usize>, cost: usize, budget: nat)
    ensures
        spent(Seq::empty(), budget) == 0,
        taken(Seq::empty(), budget).len() == 0,
        spent(costs, budget) + cost <= budget ==> taken(costs.push(cost), budget) == taken(
            costs,
            budget,
        ).push(costs.len() as int) && spent(costs.push(cost), budget) == spent(costs, budget) + cost,
        spent(costs, budget) + cost > budget ==> taken(costs.push(cost), budget) == taken(
            costs,
            budget,
        ) && spent(costs.push(cost), budget) == spent(costs, budget),
{
    assert(costs.push(cost).drop_last() =~= costs);
}

/// A unified evocation pays for facts first, out of what is reserved for them but never more than there
/// is; the essence gets what is left, if that covers a vector, and is what an evocation within what is
/// left gives. The facts are verbatim, in the order of their scores.
pub proof fn facts_are_paid_before_the_essence<A: Arithmetic>(
    arith: A,
    archetypes: Seq<ArchetypeView>,
    facts: Seq<FactView>,
    req: RequestView,
    query: Seq<Single>,
    fact_budget: usize,
    now: Tick,
    costs: Seq<usize>,
    j: int,
)
    requires
        costs.len() == factstore::hits(
            arith,
            facts,
            req.subject,
            query,
            facts.len(),
            now,
            Double { bits: DEFAULT_THETA_FADE },
        ).len(),
    ensures
        ({
            let u = unified(arith, archetypes, facts, req, query, fact_budget, now, costs);
            let reserved = if fact_budget <= req.token_budget {
                fact_budget
            } else {
                req.token_budget
            };
            let at = factstore::hits(
                arith,
                facts,
                req.subject,
                query,
                facts.len(),
                now,
                Double { bits: DEFAULT_THETA_FADE },
            );
            let left = (req.token_budget - u.fact_tokens) as usize;
            let picks = taken(costs, reserved as nat);
            &&& u.fact_tokens == spent(costs, reserved as nat)
            &&& u.facts.len() == picks.len()
            &&& 0 <= j < u.facts.len() ==> u.facts[j].text == facts[at[picks[j]]].text
                && u.facts[j].provenance == facts[at[picks[j]]].provenance && u.facts[j].score
                == facts[at[picks[j]]].score(arith, query, now)
            &&& left < req.tokens_per_vector ==> u.gist is None
            &&& left >= req.tokens_per_vector ==> u.gist == evoked(
                arith,
                archetypes,
                (RequestView {
                    subject: req.subject,
                    token_budget: left,
                    since: req.since,
                    arc_detail: req.arc_detail,
                    tokens_per_vector: req.tokens_per_vector,
                }),
                now,
            )
        }),
{
    let reserved = ranking::at_most(fact_budget as nat, req.token_budget as nat);
    spent_within(costs, reserved);
}

/// The compression of a context is how many perceptions it represents per vector, as the arithmetic
/// answers; without vectors it is zero.
pub proof fn compression_is_perceptions_per_vector<A: Arithmetic>(
    arith: A,
    c: CompressedContext,
    perceptions: Double,
    vectors: Double,
    r: Double,
)
    requires
        arithmetic::lawful(arith),
        call_ensures(A::count64, (&arith, c.represented as u64), perceptions),
        call_ensures(A::count64, (&arith, c.vectors_returned as u64), vectors),
        call_ensures(A::div64, (&arith, perceptions, vectors), r),
    ensures
        c.vectors_returned > 0 ==> c.ratio(arith) == r,
        c.vectors_returned == 0 ==> c.ratio(arith).bits == 0,
{
    reveal(arithmetic::lawful);
}

/// What a fact costs is what the pricing answers for its text: there is one cost for each fact that is
/// considered, and every one is an answer.
pub proof fn costs_are_answers<F: Fn(&str) -> usize>(
    pricing: F,
    s: Seq<FactView>,
    at: Seq<int>,
    costs: Seq<usize>,
    j: int,
)
    requires
        priced_at(pricing, s, at, costs),
        0 <= j < at.len(),
    ensures
        costs.len() == at.len(),
        exists|t: &str| t@ == s[at[j]].text && #[trigger] call_ensures(pricing, (t,), costs[j]),
{
    assert(priced(pricing, s[at[j]].text, costs[j]));
}

/// What a context holds is what its fields hold, and likewise a request.
pub proof fn contexts_hold_their_fields(c: CompressedContext, q: EvokeRequest, u: UnifiedContext)
    ensures
        c@.subject == c.subject@,
        c@.represented == c.represented,
        c@.vectors_returned == c.vectors_returned,
        c@.anomalies_included == c.anomalies_included,
        c@.arc_points == c.arc_points@,
        c@.core_label == c.core_label@,
        c@.token_estimate == c.token_estimate,
        c@.arc_labels.len() == c.arc_labels@.len(),
        forall|i: int|
            0 <= i < c.arc_labels@.len() ==> #[trigger] c@.arc_labels[i] == c.arc_labels@[i]@,
        c@.anomaly_labels.len() == c.anomaly_labels@.len(),
        forall|i: int|
            0 <= i < c.anomaly_labels@.len() ==> #[trigger] c@.anomaly_labels[i]
                == c.anomaly_labels@[i]@,
        c@.domain_arcs.len() == c.domain_arcs@.len(),
        forall|i: int|
            0 <= i < c.domain_arcs@.len() ==> (#[trigger] c@.domain_arcs[i]).0
                == c.domain_arcs@[i].0@ && c@.domain_arcs[i].1 == c.domain_arcs@[i].1@,
        c@.mode_drifts.len() == c.mode_drifts@.len(),
        forall|i: int|
            0 <= i < c.mode_drifts@.len() ==> (#[trigger] c@.mode_drifts[i]).0
                == c.mode_drifts@[i].0@ && c@.mode_drifts[i].1 == c.mode_drifts@[i].1,
        c@.arc_label_histograms.len() == c.arc_label_histograms@.len(),
        forall|i: int|
            0 <= i < c.arc_label_histograms@.len() ==> #[trigger] c@.arc_label_histograms[i]
                == histogram::entries(c.arc_label_histograms@[i]@),
        c@.resonating_mode is Some <==> c.resonating_mode is Some,
        c.resonating_mode is Some ==> c@.resonating_mode->0 == (c.resonating_mode->0)@,
        q@.subject == q.subject@,
        q@.token_budget == q.token_budget,
        q@.since == q.since,
        q@.arc_detail == q.arc_detail,
        q@.tokens_per_vector == q.tokens_per_vector,
        u@.fact_tokens == u.fact_tokens,
        u@.total_tokens == u.total_tokens,
        u@.gist is Some <==> u.gist is Some,
        u.gist is Some ==> u@.gist->0 == (u.gist->0)@,
        u@.facts.len() == u.facts@.len(),
        forall|i: int|
            0 <= i < u.facts@.len() ==> (#[trigger] u@.facts[i]).text == u.facts@[i].text@
                && u@.facts[i].score == u.facts@[i].score,
{
}

/// A budget below the price of one vector pays for none, so that the context holds no milestone and no
/// anomaly and costs nothing; where vectors cost nothing and there is no budget, the core alone comes.
pub proof fn poor_budgets_pay_for_nothing<A: Arithmetic>(
    arith: A,
    a: ArchetypeView,
    req: RequestView,
    now: Tick,
)
    requires
        req.token_budget < req.tokens_per_vector || req.token_budget == 0,
    ensures
        ({
            let c = context_of(arith, a, req, now);
            &&& c.vectors_returned == if req.tokens_per_vector == 0 {
                1int
            } else {
                0int
            }
            &&& c.token_estimate == 0
            &&& c.arc_points.len() == 0
            &&& c.arc_labels.len() == 0
            &&& c.anomalies_included == 0
            &&& c.anomaly_labels.len() == 0
        }),
{
    if req.tokens_per_vector > 0 {
        assert(req.budget_vectors() == 0) by (nonlinear_arith)
            requires
                req.token_budget < req.tokens_per_vector,
                req.budget_vectors() == req.token_budget as nat / req.tokens_per_vector as nat,
        ;
    } else {
        assert(req.budget_vectors() == 0);
    }
    thinning_spans_the_window(window_of(a.arc, req.since).len(), req.arc_quota());
    let ms = returned_milestones(a.arc, req.arc_quota(), req.since);
    assert(req.spare_vectors() == 0);
    assert(req.arc_quota() == 0);
    assert(ms.len() == 0);
    let vectors = req.core_vectors();
    assert(vectors * req.tokens_per_vector as nat == 0) by (nonlinear_arith)
        requires
            vectors == 0 || req.tokens_per_vector == 0,
    ;
}

} // verus!
