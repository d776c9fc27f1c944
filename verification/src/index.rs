//! Approximate search over the two layers of memory.
//!
//! The engine ranks exactly, by looking at everything. At large scale an index of neighbours takes
//! over: one point per mode of each archetype, or one per fact. The index measures Euclidean
//! distance; on vectors of unit norm the nearest point is the one of highest cosine, so points and
//! queries are brought to unit norm first. [`Retriever`] switches between the two.

use crate::archetype;
use crate::archetype::Archetype;
use crate::archetype::ArchetypeStore;
use crate::archetype::ArchetypeView;
use crate::arithmetic;
use crate::arithmetic::Arithmetic;
use crate::entropy::Tick;
use crate::factstore;
use crate::factstore::FactStore;
use crate::factstore::FactView;
use crate::number;
use crate::number::Double;
use crate::number::Single;
use crate::number::Vector;
use crate::ranking;
use crate::selection;
use crate::text;
use crate::trajectory;
use vstd::prelude::*;

verus! {

/// The square of each component.
pub open spec fn squares<A: Arithmetic>(arith: A, v: Seq<Single>) -> Seq<Single> {
    Seq::new(v.len(), |i: int| arithmetic::product32(arith, v[i], v[i]))
}

/// The Euclidean norm of a vector.
pub open spec fn norm<A: Arithmetic>(arith: A, v: Seq<Single>) -> Single {
    arithmetic::root32(arith, trajectory::sum_of(arith, squares(arith, v)))
}

/// A vector at unit norm; one without a positive norm as it is.
pub open spec fn normalized<A: Arithmetic>(arith: A, v: Seq<Single>) -> Seq<Single> {
    let n = norm(arith, v);
    if Single::nought().below(n) {
        Seq::new(v.len(), |i: int| arithmetic::quotient32(arith, v[i], n))
    } else {
        v
    }
}

/// The differences of the components that two vectors have in common.
pub open spec fn differences<A: Arithmetic>(arith: A, x: Seq<Single>, y: Seq<Single>) -> Seq<
    Single,
> {
    Seq::new(
        ranking::at_most(x.len(), y.len()),
        |i: int| arithmetic::difference32(arith, x[i], y[i]),
    )
}

/// The sum of the squares of a vector's components.
fn sum_squares<A: Arithmetic>(arith: &A, v: &Vector) -> (r: Single)
    requires
        arithmetic::lawful(*arith),
    ensures
        r == trajectory::sum_of(*arith, squares(*arith, v@)),
{
    let ghost all = squares(*arith, v@);
    let mut sum = Single::zero();
    let mut i: usize = 0;
    proof {
        assert(all.take(0) =~= Seq::empty());
    }
    while i < v.len()
        invariant
            arithmetic::lawful(*arith),
            i <= v.len(),
            all == squares(*arith, v@),
            sum == trajectory::sum_of(*arith, all.take(i as int)),
        decreases v.len() - i,
    {
        proof {
            assert(all.take(i + 1).drop_last() =~= all.take(i as int));
        }
        sum = arithmetic::plus32(arith, sum, arithmetic::times32(arith, v[i], v[i]));
        i += 1;
    }
    proof {
        assert(all.take(i as int) =~= all);
    }
    sum
}

/// Brings a vector to unit norm; one without a positive norm stays as it is.
pub fn normalize<A: Arithmetic>(arith: &A, v: &Vector) -> (r: Vector)
    requires
        arithmetic::lawful(*arith),
    ensures
        r@ == normalized(*arith, v@),
{
    let n = arithmetic::square_root32(arith, sum_squares(arith, v));
    if !Single::zero().lt(n) {
        return number::copy_vector(v);
    }
    let mut out: Vector = Vec::new();
    let mut i: usize = 0;
    while i < v.len()
        invariant
            arithmetic::lawful(*arith),
            i <= v.len(),
            out.len() == i,
            forall|k: int|
                0 <= k < i ==> #[trigger] out@[k] == arithmetic::quotient32(*arith, v@[k], n),
        decreases v.len() - i,
    {
        out.push(arithmetic::over32(arith, v[i], n));
        i += 1;
    }
    assert(out@ =~= normalized(*arith, v@));
    out
}

/// Euclidean distance of two points, over the components that they have in common.
pub fn distance<A: Arithmetic>(arith: &A, x: &Vector, y: &Vector) -> (r: Single)
    requires
        arithmetic::lawful(*arith),
    ensures
        r == norm(*arith, differences(*arith, x@, y@)),
{
    let ghost all = squares(*arith, differences(*arith, x@, y@));
    let n: usize = if x.len() < y.len() {
        x.len()
    } else {
        y.len()
    };
    let mut sum = Single::zero();
    let mut i: usize = 0;
    proof {
        assert(all.take(0) =~= Seq::empty());
    }
    while i < n
        invariant
            arithmetic::lawful(*arith),
            i <= n <= x.len(),
            n <= y.len(),
            n == all.len(),
            all == squares(*arith, differences(*arith, x@, y@)),
            sum == trajectory::sum_of(*arith, all.take(i as int)),
        decreases n - i,
    {
        proof {
            assert(all.take(i + 1).drop_last() =~= all.take(i as int));
        }
        let d = arithmetic::minus32(arith, x[i], y[i]);
        sum = arithmetic::plus32(arith, sum, arithmetic::times32(arith, d, d));
        i += 1;
    }
    proof {
        assert(all.take(i as int) =~= all);
    }
    arithmetic::square_root32(arith, sum)
}

/// A structure that finds the neighbours of a point among those that it was built over.
pub trait Neighbours: Sized {
    /// What a point stands for.
    type Value;

    /// Builds the structure over points.
    fn build(points: Vec<(Vector, Self::Value)>) -> Self;

    /// What the neighbours of a query stand for, nearest first.
    fn search(&self, query: &Vector) -> Vec<Self::Value>;
}

/// What points hold.
pub open spec fn points_of<V>(s: Seq<(Vector, V)>) -> Seq<(Seq<Single>, V)> {
    Seq::new(s.len(), |i: int| (s[i].0@, s[i].1))
}

/// Points at unit norm.
pub open spec fn unit_points<A: Arithmetic, V>(arith: A, s: Seq<(Seq<Single>, V)>) -> Seq<
    (Seq<Single>, V),
> {
    Seq::new(s.len(), |i: int| (normalized(arith, s[i].0), s[i].1))
}

/// `graph` is a structure that comes out of building over points that hold `points`.
pub open spec fn built_over<N: Neighbours>(points: Seq<(Seq<Single>, N::Value)>, graph: N) -> bool {
    exists|ps: Vec<(Vector, N::Value)>|
        points_of(ps@) == points && #[trigger] call_ensures(N::build, (ps,), graph)
}

/// `found` is what `graph` finds for a query that holds `query`.
pub open spec fn found_by<N: Neighbours>(
    graph: N,
    query: Seq<Single>,
    found: Seq<N::Value>,
) -> bool {
    exists|q: Vector, vs: Vec<N::Value>|
        q@ == query && vs@ == found && #[trigger] call_ensures(N::search, (&graph, &q), vs)
}

/// Which mode of which subject a point stands for; mode 0 stands for the core of an archetype
/// without modes.
#[derive(Debug, PartialEq, Eq, Hash)]
pub struct ModeRef {
    pub subject: String,
    pub mode: usize,
}

/// What a [`ModeRef`] holds.
#[verifier::ext_equal]
pub struct ModeRefView {
    pub subject: Seq<char>,
    pub mode: usize,
}

impl View for ModeRef {
    type V = ModeRefView;

    open spec fn view(&self) -> ModeRefView {
        ModeRefView { subject: self.subject@, mode: self.mode }
    }
}

impl Clone for ModeRef {
    fn clone(&self) -> (r: ModeRef)
        ensures
            r@ == self@,
    {
        ModeRef { subject: self.subject.clone(), mode: self.mode }
    }
}

/// Which fact a point stands for: its subject, and its position when the index was built.
#[derive(Debug, PartialEq, Eq, Hash)]
pub struct FactRef {
    pub subject: String,
    pub position: usize,
}

/// What a [`FactRef`] holds.
#[verifier::ext_equal]
pub struct FactRefView {
    pub subject: Seq<char>,
    pub position: usize,
}

impl View for FactRef {
    type V = FactRefView;

    open spec fn view(&self) -> FactRefView {
        FactRefView { subject: self.subject@, position: self.position }
    }
}

impl Clone for FactRef {
    fn clone(&self) -> (r: FactRef)
        ensures
            r@ == self@,
    {
        FactRef { subject: self.subject.clone(), position: self.position }
    }
}

/// The points of an archetype: one per mode, or its core where it has none.
pub open spec fn archetype_points(a: ArchetypeView) -> Seq<(Seq<Single>, ModeRefView)> {
    if a.modes.len() == 0 {
        seq![(a.core, ModeRefView { subject: a.subject, mode: 0 })]
    } else {
        Seq::new(
            a.modes.len(),
            |i: int|
                (a.modes[i].centroid, ModeRefView { subject: a.subject, mode: i as usize }),
        )
    }
}

/// The points of a long-term memory, archetype by archetype.
pub open spec fn mode_points(s: Seq<ArchetypeView>) -> Seq<(Seq<Single>, ModeRefView)>
    decreases s.len(),
{
    if s.len() == 0 {
        Seq::empty()
    } else {
        mode_points(s.drop_last()) + archetype_points(s.last())
    }
}

/// The points of an episodic memory: one per fact.
pub open spec fn fact_points(s: Seq<FactView>) -> Seq<(Seq<Single>, FactRefView)> {
    Seq::new(
        s.len(),
        |i: int| (s[i].embedding, FactRefView { subject: s[i].subject, position: i as usize }),
    )
}

/// Points by what their mode references hold.
pub open spec fn mode_refs(s: Seq<(Seq<Single>, ModeRef)>) -> Seq<(Seq<Single>, ModeRefView)> {
    Seq::new(s.len(), |i: int| (s[i].0, s[i].1@))
}

/// Points by what their fact references hold.
pub open spec fn fact_refs(s: Seq<(Seq<Single>, FactRef)>) -> Seq<(Seq<Single>, FactRefView)> {
    Seq::new(s.len(), |i: int| (s[i].0, s[i].1@))
}

/// The subjects of mode references.
pub open spec fn subjects_of(s: Seq<ModeRef>) -> Seq<Seq<char>> {
    Seq::new(s.len(), |i: int| s[i].subject@)
}

/// `k` times a factor, as far as a machine word goes.
pub open spec fn wider(k: usize, factor: usize) -> nat {
    ranking::at_most((k * factor) as nat, usize::MAX as nat)
}

/// The first `k` different texts of a list.
pub open spec fn first_distinct(names: Seq<Seq<char>>, k: nat) -> Seq<Seq<char>> {
    let all = text::distinct_of(names);
    all.take(ranking::at_most(all.len(), k) as int)
}

/// `k` times a factor, as far as a machine word goes.
fn widen(k: usize, factor: usize) -> (r: usize)
    requires
        factor > 0,
    ensures
        r == wider(k, factor),
{
    match k.checked_mul(factor) {
        Some(n) => n,
        None => usize::MAX,
    }
}

/// An index over points.
pub struct AnnIndex<N: Neighbours> {
    map: Option<N>,
    len: usize,
}

impl<N: Neighbours> AnnIndex<N> {
    /// The structure behind the index, where there are points.
    pub closed spec fn graph(&self) -> Option<N> {
        self.map
    }

    /// The number of points.
    pub closed spec fn size(&self) -> nat {
        self.len as nat
    }

    /// The index stands over `points`, at unit norm.
    pub open spec fn indexes<A: Arithmetic>(
        &self,
        arith: A,
        points: Seq<(Seq<Single>, N::Value)>,
    ) -> bool {
        &&& self.size() == points.len()
        &&& match self.graph() {
            Some(g) => points.len() > 0 && built_over(unit_points(arith, points), g),
            None => points.len() == 0,
        }
    }

    /// `r` is the first `k` of what the index finds for a query, at unit norm.
    pub open spec fn answers<A: Arithmetic>(
        &self,
        arith: A,
        query: Seq<Single>,
        k: nat,
        r: Seq<N::Value>,
    ) -> bool {
        match self.graph() {
            Some(g) => exists|found: Seq<N::Value>| #[trigger]
                found_by(g, normalized(arith, query), found) && r == found.take(
                    ranking::at_most(found.len(), k) as int,
                ),
            None => r.len() == 0,
        }
    }

    /// Builds an index over points.
    pub fn from_points<A: Arithmetic>(arith: &A, points: Vec<(Vector, N::Value)>) -> (r: AnnIndex<
        N,
    >)
        requires
            arithmetic::lawful(*arith),
        ensures
            r.indexes(*arith, points_of(points@)),
    {
        let len: usize = points.len();
        if len == 0 {
            return AnnIndex { map: None, len: 0 };
        }
        let ghost given = points@;
        let ghost all = points_of(given);
        let mut units: Vec<(Vector, N::Value)> = Vec::new();
        for p in it: points
            invariant
                arithmetic::lawful(*arith),
                it.seq() == given,
                all == points_of(given),
                units.len() == it.index(),
                forall|k: int|
                    0 <= k < units.len() ==> (#[trigger] points_of(units@)[k]) == unit_points(
                        *arith,
                        all,
                    )[k],
        {
            let ghost had = units@;
            units.push((normalize(arith, &p.0), p.1));
            proof {
                assert forall|k: int| 0 <= k < units.len() implies (#[trigger] points_of(
                    units@,
                )[k]) == unit_points(*arith, all)[k] by {
                    if k < had.len() {
                        assert(points_of(had)[k] == unit_points(*arith, all)[k]);
                    }
                }
            }
        }
        proof {
            assert(points_of(units@) =~= unit_points(*arith, all));
        }
        let graph = N::build(units);
        proof {
            assert(built_over(unit_points(*arith, all), graph));
        }
        AnnIndex { map: Some(graph), len }
    }

    /// What the `k` points nearest to a query stand for, nearest first.
    pub fn resonate<A: Arithmetic>(&self, arith: &A, query: &Vector, k: usize) -> (r: Vec<N::Value>)
        requires
            arithmetic::lawful(*arith),
        ensures
            self.answers(*arith, query@, k as nat, r@),
            r.len() <= k,
    {
        match &self.map {
            Some(g) => {
                let q = normalize(arith, query);
                let mut found = g.search(&q);
                let ghost all = found@;
                proof {
                    assert(found_by(*g, normalized(*arith, query@), all));
                }
                if k < found.len() {
                    found.truncate(k);
                }
                assert(found@ =~= all.take(ranking::at_most(all.len(), k as nat) as int));
                found
            },
            None => Vec::new(),
        }
    }

    /// Number of points.
    pub fn len(&self) -> (r: usize)
        ensures
            r == self.size(),
    {
        self.len
    }

    /// Whether there is no point.
    pub fn is_empty(&self) -> (r: bool)
        ensures
            r == (self.size() == 0),
    {
        self.len == 0
    }
}

/// An index over the modes of a long-term memory.
pub type ModeIndex<N> = AnnIndex<N>;

/// An index over the facts of an episodic memory.
pub type FactIndex<N> = AnnIndex<N>;

/// The index stands over the points of a long-term memory.
pub open spec fn spans_modes<A: Arithmetic, N: Neighbours<Value = ModeRef>>(
    arith: A,
    index: AnnIndex<N>,
    s: Seq<ArchetypeView>,
) -> bool {
    exists|points: Seq<(Seq<Single>, ModeRef)>| #[trigger]
        index.indexes(arith, points) && mode_refs(points) == mode_points(s)
}

/// The index stands over the points of an episodic memory.
pub open spec fn spans_facts<A: Arithmetic, N: Neighbours<Value = FactRef>>(
    arith: A,
    index: AnnIndex<N>,
    s: Seq<FactView>,
) -> bool {
    exists|points: Seq<(Seq<Single>, FactRef)>| #[trigger]
        index.indexes(arith, points) && fact_refs(points) == fact_points(s)
}

/// Adds the points of an archetype.
fn add_points(out: &mut Vec<(Vector, ModeRef)>, a: &Archetype)
    ensures
        mode_refs(points_of(final(out)@)) == mode_refs(points_of(old(out)@)) + archetype_points(a@),
{
    let ghost before = mode_refs(points_of(out@));
    if a.modes.len() == 0 {
        out.push(
            (
                number::copy_vector(&a.core),
                ModeRef { subject: a.subject.clone(), mode: 0 },
            ),
        );
        assert(mode_refs(points_of(out@)) =~= before + archetype_points(a@));
    } else {
        let ghost all = archetype_points(a@);
        let mut i: usize = 0;
        proof {
            assert(mode_refs(points_of(out@)) =~= before + all.take(0));
        }
        while i < a.modes.len()
            invariant
                i <= a.modes.len(),
                a.modes.len() > 0,
                all == archetype_points(a@),
                mode_refs(points_of(out@)) == before + all.take(i as int),
            decreases a.modes.len() - i,
        {
            let ghost had = mode_refs(points_of(out@));
            proof {
                assert(a@.modes[i as int] == a.modes@[i as int]@);
            }
            out.push(
                (
                    number::copy_vector(&a.modes[i].centroid),
                    ModeRef { subject: a.subject.clone(), mode: i },
                ),
            );
            assert(mode_refs(points_of(out@)) =~= had.push(all[i as int]));
            assert(had.push(all[i as int]) =~= before + all.take(i + 1));
            i += 1;
        }
        assert(all.take(i as int) =~= all);
    }
}

/// Keeps the first `k` different texts of a list.
fn keep_distinct(names: &Vec<String>, k: usize) -> (r: Vec<String>)
    requires
        k > 0,
    ensures
        text::texts_of(r@) == first_distinct(text::texts_of(names@), k as nat),
{
    let ghost all = text::texts_of(names@);
    let mut out: Vec<String> = Vec::new();
    let mut i: usize = 0;
    proof {
        assert(all.take(0) =~= Seq::empty());
        assert(text::texts_of(out@) =~= text::distinct_of(all.take(0)));
    }
    while i < names.len() && out.len() < k
        invariant
            i <= names.len(),
            out.len() <= k,
            all == text::texts_of(names@),
            text::texts_of(out@) == text::distinct_of(all.take(i as int)),
        decreases names.len() - i,
    {
        let ghost had = text::texts_of(out@);
        proof {
            assert(all.take(i + 1).drop_last() =~= all.take(i as int));
            assert(all.take(i + 1).last() == names@[i as int]@);
        }
        if !text::listed(&out, names[i].as_str()) {
            out.push(names[i].clone());
            assert(text::texts_of(out@) =~= had.push(names@[i as int]@));
        }
        i += 1;
    }
    proof {
        text::distinct_of_grows(all, i as int);
        if i == names.len() {
            assert(all.take(i as int) =~= all);
            assert(text::distinct_of(all).take(out.len() as int) =~= text::distinct_of(all));
        }
    }
    out
}

impl<N: Neighbours<Value = ModeRef>> AnnIndex<N> {
    /// Builds the index of a long-term memory: one point per mode of each archetype; an archetype
    /// without modes gives its core.
    pub fn build<A: Arithmetic>(arith: &A, store: &ArchetypeStore) -> (r: AnnIndex<N>)
        requires
            arithmetic::lawful(*arith),
        ensures
            spans_modes(*arith, r, store@),
    {
        let archetypes = store.iter();
        let ghost all = store@;
        let mut points: Vec<(Vector, ModeRef)> = Vec::new();
        let mut i: usize = 0;
        proof {
            assert(all.take(0) =~= Seq::empty());
            assert(mode_refs(points_of(points@)) =~= mode_points(all.take(0)));
        }
        while i < archetypes.len()
            invariant
                i <= archetypes.len(),
                all == archetype::archetypes_of(selection::targets(archetypes@)),
                mode_refs(points_of(points@)) == mode_points(all.take(i as int)),
            decreases archetypes.len() - i,
        {
            proof {
                assert(all.take(i + 1).drop_last() =~= all.take(i as int));
                assert(all.take(i + 1).last() == (*archetypes@[i as int])@);
            }
            add_points(&mut points, archetypes[i]);
            i += 1;
        }
        proof {
            assert(all.take(i as int) =~= all);
        }
        let ghost given = points_of(points@);
        let r = AnnIndex::from_points(arith, points);
        proof {
            assert(r.indexes(*arith, given));
        }
        r
    }

    /// The `k` subjects whose modes resonate most, each once, best first.
    pub fn resonate_subjects<A: Arithmetic>(&self, arith: &A, query: &Vector, k: usize) -> (r: Vec<
        String,
    >)
        requires
            arithmetic::lawful(*arith),
        ensures
            exists|refs: Seq<ModeRef>| #[trigger]
                self.answers(*arith, query@, wider(k, 4), refs) && text::texts_of(r@)
                    == first_distinct(subjects_of(refs), k as nat),
    {
        let refs = self.resonate(arith, query, widen(k, 4));
        let ghost found = refs@;
        let mut names: Vec<String> = Vec::new();
        let mut i: usize = 0;
        while i < refs.len()
            invariant
                i <= refs.len(),
                names.len() == i,
                forall|j: int| 0 <= j < i ==> (#[trigger] names@[j])@ == refs@[j].subject@,
            decreases refs.len() - i,
        {
            names.push(refs[i].subject.clone());
            i += 1;
        }
        proof {
            assert(text::texts_of(names@) =~= subjects_of(found));
            assert(self.answers(*arith, query@, wider(k, 4), found));
        }
        if k == 0 {
            let none: Vec<String> = Vec::new();
            assert(text::texts_of(none@) =~= first_distinct(subjects_of(found), 0));
            return none;
        }
        keep_distinct(&names, k)
    }
}

impl<N: Neighbours<Value = FactRef>> AnnIndex<N> {
    /// Builds the index of an episodic memory: one point per fact.
    pub fn build_facts<A: Arithmetic>(arith: &A, store: &FactStore) -> (r: AnnIndex<N>)
        requires
            arithmetic::lawful(*arith),
        ensures
            spans_facts(*arith, r, store@),
    {
        let facts = store.iter();
        let ghost all = store@;
        let mut points: Vec<(Vector, FactRef)> = Vec::new();
        let mut i: usize = 0;
        while i < facts.len()
            invariant
                i <= facts.len(),
                all == factstore::facts_of(selection::targets(facts@)),
                points.len() == i,
                forall|j: int|
                    0 <= j < i ==> (#[trigger] fact_refs(points_of(points@))[j]) == fact_points(
                        all,
                    )[j],
            decreases facts.len() - i,
        {
            let ghost had = points@;
            proof {
                assert(all[i as int] == (*facts@[i as int])@);
            }
            points.push(
                (
                    number::copy_vector(&facts[i].embedding),
                    FactRef { subject: facts[i].subject.clone(), position: i },
                ),
            );
            proof {
                assert forall|j: int| 0 <= j < points.len() implies (#[trigger] fact_refs(
                    points_of(points@),
                )[j]) == fact_points(all)[j] by {
                    if j < had.len() {
                        assert(fact_refs(points_of(had))[j] == fact_points(all)[j]);
                    }
                }
            }
            i += 1;
        }
        let ghost given = points_of(points@);
        proof {
            assert(fact_refs(given) =~= fact_points(all));
        }
        let r = AnnIndex::from_points(arith, points);
        proof {
            assert(r.indexes(*arith, given));
        }
        r
    }
}

/// The subjects that have an archetype which is alive at `now`.
pub open spec fn living<A: Arithmetic>(
    arith: A,
    s: Seq<ArchetypeView>,
    now: Tick,
    theta: Double,
) -> spec_fn(Seq<char>) -> bool {
    |subject: Seq<char>|
        match archetype::place_of(s, subject) {
            Some(i) => theta.at_most(s[i].trace.life(arith, now)),
            None => false,
        }
}

/// The subjects of the archetypes at some places.
pub open spec fn subjects_at(s: Seq<ArchetypeView>, at: Seq<int>) -> Seq<Seq<char>> {
    Seq::new(at.len(), |i: int| s[at[i]].subject)
}

/// Retrieval by exact ranking up to a number of archetypes, and by an index above it. The index is
/// kept, and built anew when the number of archetypes changes.
pub struct Retriever<N: Neighbours<Value = ModeRef>> {
    threshold: usize,
    cache: Option<(usize, AnnIndex<N>)>,
}

impl<N: Neighbours<Value = ModeRef>> Retriever<N> {
    /// Up to how many archetypes the exact ranking serves.
    pub closed spec fn limit(&self) -> usize {
        self.threshold
    }

    /// The index that is kept, with the number of archetypes that it was built for.
    pub closed spec fn kept(&self) -> Option<(usize, AnnIndex<N>)> {
        self.cache
    }

    /// Whether the index that is kept was built for so many archetypes.
    pub open spec fn fits(&self, archetypes: nat) -> bool {
        self.kept() is Some && (self.kept()->0).0 == archetypes
    }

    /// A retriever that keeps no index yet.
    pub fn new(threshold: usize) -> (r: Retriever<N>)
        ensures
            r.limit() == threshold,
            r.kept() is None,
    {
        Retriever { threshold, cache: None }
    }

    /// The `k` live subjects that resonate most. Up to the threshold they are ranked exactly, by
    /// relevance and life; above it the index is asked for a wide margin of candidates, of which
    /// those that are alive stay.
    pub fn resonate_subjects<A: Arithmetic>(
        &mut self,
        arith: &A,
        store: &ArchetypeStore,
        query: &Vector,
        k: usize,
        now: Tick,
        theta_fade: Double,
    ) -> (r: Vec<String>)
        requires
            arithmetic::lawful(*arith),
        ensures
            final(self).limit() == old(self).limit(),
            store@.len() <= old(self).limit() ==> final(self).kept() == old(self).kept()
                && text::texts_of(r@) == subjects_at(
                store@,
                archetype::resonant_places(
                    *arith,
                    store@,
                    query@,
                    k as nat,
                    now,
                    theta_fade,
                ),
            ),
            store@.len() > old(self).limit() ==> {
                &&& final(self).fits(store@.len())
                &&& if old(self).fits(store@.len()) {
                    final(self).kept() == old(self).kept()
                } else {
                    spans_modes(*arith, (final(self).kept()->0).1, store@)
                }
                &&& exists|refs: Seq<ModeRef>| #[trigger]
                    (final(self).kept()->0).1.answers(*arith, query@, wider(k, 8), refs)
                        && text::texts_of(r@) == first_distinct(
                        subjects_of(refs).filter(living(*arith, store@, now, theta_fade)),
                        k as nat,
                    )
            },
    {
        if store.len() <= self.threshold {
            let hits = store.resonate(arith, query, k, now, theta_fade);
            let mut out: Vec<String> = Vec::new();
            let mut i: usize = 0;
            while i < hits.len()
                invariant
                    i <= hits.len(),
                    out.len() == i,
                    forall|j: int| 0 <= j < i ==> (#[trigger] out@[j])@ == hits@[j].subject@,
                decreases hits.len() - i,
            {
                out.push(hits[i].subject.clone());
                i += 1;
            }
            proof {
                let at = archetype::resonant_places(
                    *arith,
                    store@,
                    query@,
                    k as nat,
                    now,
                    theta_fade,
                );
                assert forall|j: int| 0 <= j < out.len() implies #[trigger] out@[j]@
                    == subjects_at(store@, at)[j] by {
                    assert(hits@[j]@ == store@[at[j]]);
                }
                assert(text::texts_of(out@) =~= subjects_at(store@, at));
            }
            return out;
        }
        let stale: bool = match &self.cache {
            Some(c) => c.0 != store.len(),
            None => true,
        };
        if stale {
            self.cache = Some((store.len(), AnnIndex::build(arith, store)));
        }
        let refs: Vec<ModeRef> = match &self.cache {
            Some(c) => c.1.resonate(arith, query, widen(k, 8)),
            None => Vec::new(),
        };
        let ghost found = refs@;
        let ghost alive = living(*arith, store@, now, theta_fade);
        let ghost all = subjects_of(found);
        let mut names: Vec<String> = Vec::new();
        let mut i: usize = 0;
        proof {
            assert((self.kept()->0).1.answers(*arith, query@, wider(k, 8), found));
            assert(all.take(0) =~= Seq::empty());
            assert(text::texts_of(names@) =~= all.take(0).filter(alive)) by {
                reveal(Seq::filter);
            }
        }
        while i < refs.len()
            invariant
                arithmetic::lawful(*arith),
                i <= refs.len(),
                all == subjects_of(refs@),
                alive == living(*arith, store@, now, theta_fade),
                text::texts_of(names@) == all.take(i as int).filter(alive),
            decreases refs.len() - i,
        {
            let ghost had = text::texts_of(names@);
            let ghost name = refs@[i as int].subject@;
            proof {
                assert(all.take(i + 1).drop_last() =~= all.take(i as int));
                assert(all.take(i + 1).last() == name);
                reveal(Seq::filter);
            }
            match store.get(refs[i].subject.as_str()) {
                Some(a) => {
                    if theta_fade.le(a.trace.weight(arith, now)) {
                        names.push(refs[i].subject.clone());
                        assert(text::texts_of(names@) =~= had.push(name));
                    }
                },
                None => {},
            }
            i += 1;
        }
        proof {
            assert(all.take(i as int) =~= all);
        }
        if k == 0 {
            let none: Vec<String> = Vec::new();
            assert(text::texts_of(none@) =~= first_distinct(all.filter(alive), 0));
            return none;
        }
        keep_distinct(&names, k)
    }

    /// Drops the index that is kept; for when modes change while the number of archetypes does not.
    pub fn invalidate(&mut self)
        ensures
            final(self).limit() == old(self).limit(),
            final(self).kept() is None,
    {
        self.cache = None;
    }
}

/// Whatever an index finds, what is retrieved above the threshold are at most `k` subjects, each
/// once, each of them found, and each with an archetype that is alive: a faded subject is not
/// returned, however well it resonates.
pub proof fn retrieved_subjects_are_alive<A: Arithmetic>(
    arith: A,
    s: Seq<ArchetypeView>,
    found: Seq<Seq<char>>,
    k: nat,
    now: Tick,
    theta: Double,
)
    ensures
        ({
            let r = first_distinct(found.filter(living(arith, s, now, theta)), k);
            &&& r.len() <= k
            &&& r.no_duplicates()
            &&& forall|i: int|
                0 <= i < r.len() ==> found.contains(#[trigger] r[i]) && living(
                    arith,
                    s,
                    now,
                    theta,
                )(r[i])
        }),
{
    let alive = living(arith, s, now, theta);
    let names = found.filter(alive);
    let all = text::distinct_of(names);
    let r = first_distinct(names, k);
    text::distinct_of_is_exact(names);
    selection::filter_is_faithful(found, alive);
    assert forall|i: int| 0 <= i < r.len() implies found.contains(#[trigger] r[i]) && alive(
        r[i],
    ) by {
        assert(r[i] == all[i]);
        assert(all.contains(r[i]));
        assert(names.contains(r[i]));
    }
}

/// The norm of a vector is the root of the sum of its squares, and a vector with a positive norm comes to
/// unit norm by dividing each component by it; one without stays as it is. Each operation is asked of the
/// arithmetic.
pub proof fn vectors_come_to_unit_norm<A: Arithmetic>(
    arith: A,
    v: Seq<Single>,
    squared: Seq<Single>,
    n: Single,
    k: int,
    r: Single,
)
    requires
        arithmetic::lawful(arith),
        squared.len() == v.len(),
        forall|i: int|
            0 <= i < v.len() ==> call_ensures(
                A::mul32,
                (&arith, v[i], v[i]),
                #[trigger] squared[i],
            ),
        call_ensures(A::sqrt32, (&arith, trajectory::sum_of(arith, squared)), n),
        0 <= k < v.len(),
        call_ensures(A::div32, (&arith, v[k], n), r),
    ensures
        norm(arith, v) == n,
        normalized(arith, v).len() == v.len(),
        Single::nought().below(n) ==> normalized(arith, v)[k] == r,
        !Single::nought().below(n) ==> normalized(arith, v) == v,
{
    reveal(arithmetic::lawful);
    assert(squared =~= squares(arith, v)) by {
        assert forall|i: int| 0 <= i < v.len() implies #[trigger] squared[i] == squares(
            arith,
            v,
        )[i] by {
            assert(call_ensures(A::mul32, (&arith, v[i], v[i]), squared[i]));
        }
    }
}

/// The distance of two points is the norm of their differences, over the components they share.
pub proof fn distances_are_norms_of_differences<A: Arithmetic>(
    arith: A,
    x: Seq<Single>,
    y: Seq<Single>,
    k: int,
    d: Single,
)
    requires
        arithmetic::lawful(arith),
        0 <= k < x.len(),
        k < y.len(),
        call_ensures(A::sub32, (&arith, x[k], y[k]), d),
    ensures
        differences(arith, x, y).len() == (if x.len() <= y.len() {
            x.len()
        } else {
            y.len()
        }),
        differences(arith, x, y)[k] == d,
{
    reveal(arithmetic::lawful);
}

/// What is indexed: archetype by archetype one point per mode, at its centroid and named after the subject
/// and the place of the mode, or one at the core where there are no modes; and one point per fact.
pub proof fn every_mode_and_fact_is_a_point(
    s: Seq<ArchetypeView>,
    a: ArchetypeView,
    facts: Seq<FactView>,
    i: int,
)
    requires
        a.modes.len() <= usize::MAX,
        facts.len() <= usize::MAX,
    ensures
        mode_points(Seq::empty()).len() == 0,
        mode_points(s.push(a)) == mode_points(s) + archetype_points(a),
        a.modes.len() == 0 ==> archetype_points(a).len() == 1 && archetype_points(a)[0].0 == a.core
            && archetype_points(a)[0].1.subject == a.subject && archetype_points(a)[0].1.mode == 0,
        a.modes.len() > 0 ==> archetype_points(a).len() == a.modes.len(),
        0 <= i < a.modes.len() ==> archetype_points(a)[i].0 == a.modes[i].centroid
            && archetype_points(a)[i].1.subject == a.subject && archetype_points(a)[i].1.mode == i,
        fact_points(facts).len() == facts.len(),
        0 <= i < facts.len() ==> fact_points(facts)[i].0 == facts[i].embedding && fact_points(
            facts,
        )[i].1.subject == facts[i].subject && fact_points(facts)[i].1.position == i,
{
    assert(s.push(a).drop_last() =~= s);
}

/// Candidates are asked for with a margin, a multiple of what is wanted as far as a machine word goes, and
/// what is kept of them are the first different ones.
pub proof fn the_first_different_candidates_stay(
    names: Seq<Seq<char>>,
    name: Seq<char>,
    k: nat,
    wanted: usize,
    factor: usize,
)
    ensures
        wanted * factor <= usize::MAX ==> wider(wanted, factor) == wanted * factor,
        wanted * factor > usize::MAX ==> wider(wanted, factor) == usize::MAX,
        first_distinct(Seq::empty(), k).len() == 0,
        first_distinct(names, k).len() == k || names.contains(name) ==> first_distinct(
            names.push(name),
            k,
        ) == first_distinct(names, k),
        first_distinct(names, k).len() < k && !names.contains(name) ==> first_distinct(
            names.push(name),
            k,
        ) == first_distinct(names, k).push(name),
{
    assert(0 <= wanted * factor) by (nonlinear_arith)
        requires
            wanted >= 0,
            factor >= 0,
    ;
    assert(names.push(name).drop_last() =~= names);
    text::distinct_of_is_exact(names);
    let all = text::distinct_of(names);
    let more = text::distinct_of(names.push(name));
    assert(all.contains(name) <==> names.contains(name));
    if names.contains(name) {
        assert(more == all);
    } else {
        assert(more == all.push(name));
        if first_distinct(names, k).len() == k {
            assert(first_distinct(names.push(name), k) =~= first_distinct(names, k));
        } else {
            assert(first_distinct(names.push(name), k) =~= first_distinct(names, k).push(name));
        }
    }
}

/// A subject is retrieved only if the archetype it has weighs the threshold or more.
pub proof fn faded_subjects_are_not_retrieved<A: Arithmetic>(
    arith: A,
    s: Seq<ArchetypeView>,
    subject: Seq<char>,
    now: Tick,
    theta: Double,
    i: int,
)
    requires
        0 <= i < s.len(),
        forall|j: int| 0 <= j < i ==> (#[trigger] s[j]).subject != subject,
    ensures
        s[i].subject == subject ==> (living(arith, s, now, theta)(subject) <==> theta.at_most(
            s[i].trace.life(arith, now),
        )),
        (forall|j: int| 0 <= j < s.len() ==> (#[trigger] s[j]).subject != subject) ==> !living(
            arith,
            s,
            now,
            theta,
        )(subject),
{
    archetype::subjects_have_their_first_archetype(s, subject);
    if s[i].subject == subject {
        let k = archetype::place_of(s, subject)->0;
        if k < i {
            assert(s[k].subject != subject);
        }
        if i < k {
            assert(s[i].subject != subject);
        }
    }
}

/// An index stands over its points at unit norm, each with what it stands for, and over nothing where there
/// are none; and what it answers is the beginning of what its structure finds for the query at unit norm,
/// at most as much as asked for.
pub proof fn indexes_answer_at_unit_norm<A: Arithmetic, N: Neighbours>(
    arith: A,
    index: AnnIndex<N>,
    points: Seq<(Seq<Single>, N::Value)>,
    query: Seq<Single>,
    k: nat,
    r: Seq<N::Value>,
)
    requires
        index.indexes(arith, points),
        index.answers(arith, query, k, r),
    ensures
        index.size() == points.len(),
        r.len() <= k,
        points.len() == 0 ==> index.graph() is None && r.len() == 0,
        points.len() > 0 ==> index.graph() is Some && (exists|ps: Vec<(Vector, N::Value)>|
            {
                &&& #[trigger] call_ensures(N::build, (ps,), index.graph()->0)
                &&& ps@.len() == points.len()
                &&& forall|i: int|
                    0 <= i < points.len() ==> (#[trigger] ps@[i]).0@ == normalized(
                        arith,
                        points[i].0,
                    ) && ps@[i].1 == points[i].1
            }) && (exists|q: Vector, vs: Vec<N::Value>|
            {
                &&& #[trigger] call_ensures(N::search, (&(index.graph()->0), &q), vs)
                &&& q@ == normalized(arith, query)
                &&& r.len() <= vs@.len()
                &&& r.len() == k || r.len() == vs@.len()
                &&& forall|i: int| 0 <= i < r.len() ==> #[trigger] r[i] == vs@[i]
            }),
{
    if points.len() > 0 {
        let g = index.graph()->0;
        let units = unit_points(arith, points);
        let ps = choose|ps: Vec<(Vector, N::Value)>|
            points_of(ps@) == units && #[trigger] call_ensures(N::build, (ps,), g);
        assert(points_of(ps@).len() == units.len());
        assert forall|i: int| 0 <= i < points.len() implies (#[trigger] ps@[i]).0@ == normalized(
            arith,
            points[i].0,
        ) && ps@[i].1 == points[i].1 by {
            assert(points_of(ps@)[i] == units[i]);
        }
        let found = choose|found: Seq<N::Value>| #[trigger]
            found_by(g, normalized(arith, query), found) && r == found.take(
                ranking::at_most(found.len(), k) as int,
            );
        let (q, vs) = choose|q: Vector, vs: Vec<N::Value>|
            q@ == normalized(arith, query) && vs@ == found && #[trigger] call_ensures(
                N::search,
                (&g, &q),
                vs,
            );
        assert(call_ensures(N::search, (&g, &q), vs));
    }
}

/// The subjects of what was found, in the order of what was found.
pub proof fn subjects_follow_what_was_found(refs: Seq<ModeRef>, s: Seq<ArchetypeView>, at: Seq<int>, i: int)
    ensures
        subjects_of(refs).len() == refs.len(),
        0 <= i < refs.len() ==> subjects_of(refs)[i] == refs[i].subject@,
        subjects_at(s, at).len() == at.len(),
        0 <= i < at.len() ==> subjects_at(s, at)[i] == s[at[i]].subject,
{
}

/// An index over a memory has one point for each that the memory gives.
pub proof fn indexes_span_their_memory<
    A: Arithmetic,
    M: Neighbours<Value = ModeRef>,
    F: Neighbours<Value = FactRef>,
>(
    arith: A,
    modes: AnnIndex<M>,
    s: Seq<ArchetypeView>,
    facts: AnnIndex<F>,
    t: Seq<FactView>,
)
    ensures
        spans_modes(arith, modes, s) ==> modes.size() == mode_points(s).len() && exists|
            points: Seq<(Seq<Single>, ModeRef)>,
        | #[trigger]
            modes.indexes(arith, points) && forall|i: int|
                0 <= i < mode_points(s).len() ==> (#[trigger] points[i]).0 == mode_points(s)[i].0
                    && points[i].1.subject@ == mode_points(s)[i].1.subject && points[i].1.mode
                    == mode_points(s)[i].1.mode,
        spans_facts(arith, facts, t) ==> facts.size() == t.len() && exists|
            points: Seq<(Seq<Single>, FactRef)>,
        | #[trigger]
            facts.indexes(arith, points) && forall|i: int|
                0 <= i < t.len() ==> (#[trigger] points[i]).0 == t[i].embedding
                    && points[i].1.subject@ == t[i].subject,
{
    if spans_modes(arith, modes, s) {
        let points = choose|points: Seq<(Seq<Single>, ModeRef)>| #[trigger]
            modes.indexes(arith, points) && mode_refs(points) == mode_points(s);
        assert(mode_refs(points).len() == points.len());
        assert forall|i: int| 0 <= i < mode_points(s).len() implies (#[trigger] points[i]).0
            == mode_points(s)[i].0 && points[i].1.subject@ == mode_points(s)[i].1.subject
            && points[i].1.mode == mode_points(s)[i].1.mode by {
            assert(mode_refs(points)[i] == (points[i].0, points[i].1@));
        }
    }
    if spans_facts(arith, facts, t) {
        let points = choose|points: Seq<(Seq<Single>, FactRef)>| #[trigger]
            facts.indexes(arith, points) && fact_refs(points) == fact_points(t);
        assert(fact_refs(points).len() == points.len());
        assert forall|i: int| 0 <= i < t.len() implies (#[trigger] points[i]).0 == t[i].embedding
            && points[i].1.subject@ == t[i].subject by {
            assert(fact_refs(points)[i] == (points[i].0, points[i].1@));
        }
    }
}

} // verus!
