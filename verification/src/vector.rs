//! Operations on embeddings.

use crate::arithmetic;
use crate::arithmetic::Arithmetic;
use crate::number;
use crate::number::Single;
use crate::number::Vector;
use vstd::prelude::*;

verus! {

/// All embeddings have one dimension.
pub open spec fn uniform(rows: Seq<Seq<Single>>) -> bool {
    forall|i: int| 0 <= i < rows.len() ==> (#[trigger] rows[i]).len() == rows[0].len()
}

/// The mean of embeddings; there is none of no embeddings, nor of embeddings of unlike dimensions.
pub open spec fn centroid_of<A: Arithmetic>(arith: A, rows: Seq<Seq<Single>>) -> Option<
    Seq<Single>,
> {
    if rows.len() > 0 && uniform(rows) {
        Some(arithmetic::mean_of(arith, rows))
    } else {
        None
    }
}

/// The mean of embeddings, where there are any and all have one dimension.
pub fn centroid<A: Arithmetic>(arith: &A, rows: &Vec<Vector>) -> (r: Option<Vector>)
    requires
        arithmetic::lawful(*arith),
    ensures
        match r {
            Some(c) => centroid_of(*arith, number::vectors_of(rows@)) == Some(c@),
            None => centroid_of(*arith, number::vectors_of(rows@)) is None,
        },
{
    let ghost all = number::vectors_of(rows@);
    if rows.len() == 0 {
        return None;
    }
    let mut i: usize = 1;
    while i < rows.len()
        invariant
            1 <= i <= rows.len(),
            all == number::vectors_of(rows@),
            forall|j: int| 0 <= j < i ==> (#[trigger] all[j]).len() == all[0].len(),
        decreases rows.len() - i,
    {
        if rows[i].len() != rows[0].len() {
            assert(all[i as int].len() != all[0].len());
            return None;
        }
        i += 1;
    }
    Some(arithmetic::mean(arith, rows))
}

/// One component of a blend of two directions, each weighted by the volume that backs it.
pub open spec fn blend_component<A: Arithmetic>(
    arith: A,
    x: Single,
    w_old: nat,
    y: Single,
    w_new: nat,
) -> Single {
    let a = arithmetic::single_of(arith, w_old as u64);
    let b = arithmetic::single_of(arith, w_new as u64);
    arithmetic::quotient32(
        arith,
        arithmetic::sum32(
            arith,
            arithmetic::product32(arith, x, a),
            arithmetic::product32(arith, y, b),
        ),
        arithmetic::sum32(arith, a, b),
    )
}

/// A volume counts at least once.
pub open spec fn at_least_one(n: usize) -> nat {
    if n == 0 {
        1
    } else {
        n as nat
    }
}

/// The direction `x`, backed by `w_old` events, moved towards `y`, backed by `w_new` events; a
/// direction of another dimension moves nothing.
pub open spec fn blended<A: Arithmetic>(
    arith: A,
    x: Seq<Single>,
    w_old: usize,
    y: Seq<Single>,
    w_new: usize,
) -> Seq<Single> {
    if x.len() == y.len() {
        Seq::new(
            x.len(),
            |i: int|
                blend_component(arith, x[i], at_least_one(w_old), y[i], at_least_one(w_new)),
        )
    } else {
        x
    }
}

/// Moves a direction towards another, weighted by the volumes that back them.
pub fn blend<A: Arithmetic>(arith: &A, x: &mut Vector, w_old: usize, y: &Vector, w_new: usize)
    requires
        arithmetic::lawful(*arith),
    ensures
        final(x)@ == blended(*arith, old(x)@, w_old, y@, w_new),
{
    let ghost before = x@;
    if x.len() == y.len() {
        let a = arithmetic::single_from(arith, if w_old == 0 { 1u64 } else { w_old as u64 });
        let b = arithmetic::single_from(arith, if w_new == 0 { 1u64 } else { w_new as u64 });
        let whole = arithmetic::plus32(arith, a, b);
        let mut i: usize = 0;
        while i < x.len()
            invariant
                arithmetic::lawful(*arith),
                i <= x.len(),
                x.len() == y.len(),
                x.len() == before.len(),
                a == arithmetic::single_of(*arith, at_least_one(w_old) as u64),
                b == arithmetic::single_of(*arith, at_least_one(w_new) as u64),
                whole == arithmetic::sum32(*arith, a, b),
                forall|j: int| i <= j < before.len() ==> x@[j] == before[j],
                forall|j: int|
                    0 <= j < i ==> #[trigger] x@[j] == blend_component(
                        *arith,
                        before[j],
                        at_least_one(w_old),
                        y@[j],
                        at_least_one(w_new),
                    ),
            decreases x.len() - i,
        {
            let top = arithmetic::plus32(
                arith,
                arithmetic::times32(arith, x[i], a),
                arithmetic::times32(arith, y[i], b),
            );
            x.set(i, arithmetic::over32(arith, top, whole));
            i += 1;
        }
        assert(x@ =~= blended(*arith, before, w_old, y@, w_new));
    }
}

/// The component-wise sum of two embeddings of one dimension.
pub open spec fn accumulated<A: Arithmetic>(arith: A, x: Seq<Single>, y: Seq<Single>) -> Seq<
    Single,
> {
    Seq::new(x.len(), |i: int| arithmetic::sum32(arith, x[i], y[i]))
}

/// Adds an embedding to a running sum.
pub fn accumulate<A: Arithmetic>(arith: &A, x: &mut Vector, y: &Vector)
    requires
        arithmetic::lawful(*arith),
        old(x).len() == y.len(),
    ensures
        final(x)@ == accumulated(*arith, old(x)@, y@),
{
    let ghost before = x@;
    let mut i: usize = 0;
    while i < x.len()
        invariant
            arithmetic::lawful(*arith),
            i <= x.len(),
            x.len() == y.len(),
            x.len() == before.len(),
            forall|j: int| i <= j < before.len() ==> x@[j] == before[j],
            forall|j: int|
                0 <= j < i ==> #[trigger] x@[j] == arithmetic::sum32(*arith, before[j], y@[j]),
        decreases x.len() - i,
    {
        x.set(i, arithmetic::plus32(arith, x[i], y[i]));
        i += 1;
    }
    assert(x@ =~= accumulated(*arith, before, y@));
}

/// The zero embedding.
pub open spec fn origin(dim: nat) -> Seq<Single> {
    Seq::new(dim, |i: int| Single::nought())
}

/// The zero embedding.
pub fn zeros(dim: usize) -> (r: Vector)
    ensures
        r@ == origin(dim as nat),
{
    let mut out: Vector = Vec::new();
    let mut i: usize = 0;
    while i < dim
        invariant
            i <= dim,
            out@ == origin(i as nat),
        decreases dim - i,
    {
        out.push(Single::zero());
        assert(out@ =~= origin((i + 1) as nat));
        i += 1;
    }
    out
}

/// An embedding with each component multiplied by a factor.
pub open spec fn scaled<A: Arithmetic>(arith: A, x: Seq<Single>, factor: Single) -> Seq<Single> {
    Seq::new(x.len(), |i: int| arithmetic::product32(arith, x[i], factor))
}

/// Multiplies each component by a factor.
pub fn scale<A: Arithmetic>(arith: &A, x: &Vector, factor: Single) -> (r: Vector)
    requires
        arithmetic::lawful(*arith),
    ensures
        r@ == scaled(*arith, x@, factor),
{
    let mut out: Vector = Vec::new();
    let mut i: usize = 0;
    while i < x.len()
        invariant
            arithmetic::lawful(*arith),
            i <= x.len(),
            out.len() == i,
            forall|j: int|
                0 <= j < i ==> #[trigger] out@[j] == arithmetic::product32(*arith, x@[j], factor),
        decreases x.len() - i,
    {
        out.push(arithmetic::times32(arith, x[i], factor));
        i += 1;
    }
    assert(out@ =~= scaled(*arith, x@, factor));
    out
}

/// A blend is a mean weighted by volumes, component by component: each operation asked of the
/// arithmetic. What has no volume counts once.
pub proof fn blends_are_weighted_means<A: Arithmetic>(
    arith: A,
    x: Seq<Single>,
    w_old: usize,
    y: Seq<Single>,
    w_new: usize,
    k: int,
    a: Single,
    b: Single,
    left: Single,
    right: Single,
    sum: Single,
    whole: Single,
    r: Single,
)
    requires
        arithmetic::lawful(arith),
        x.len() == y.len(),
        0 <= k < x.len(),
        call_ensures(
            A::count32,
            (
                &arith,
                (if w_old == 0 {
                    1
                } else {
                    w_old as u64
                }),
            ),
            a,
        ),
        call_ensures(
            A::count32,
            (
                &arith,
                (if w_new == 0 {
                    1
                } else {
                    w_new as u64
                }),
            ),
            b,
        ),
        call_ensures(A::mul32, (&arith, x[k], a), left),
        call_ensures(A::mul32, (&arith, y[k], b), right),
        call_ensures(A::add32, (&arith, left, right), sum),
        call_ensures(A::add32, (&arith, a, b), whole),
        call_ensures(A::div32, (&arith, sum, whole), r),
    ensures
        blended(arith, x, w_old, y, w_new).len() == x.len(),
        blended(arith, x, w_old, y, w_new)[k] == r,
{
    reveal(arithmetic::lawful);
}

/// A direction of another dimension moves nothing.
pub proof fn other_dimensions_move_nothing<A: Arithmetic>(
    arith: A,
    x: Seq<Single>,
    w_old: usize,
    y: Seq<Single>,
    w_new: usize,
)
    requires
        x.len() != y.len(),
    ensures
        blended(arith, x, w_old, y, w_new) == x,
{
}

/// Sums and scalings are component by component.
pub proof fn vectors_are_componentwise<A: Arithmetic>(
    arith: A,
    x: Seq<Single>,
    y: Seq<Single>,
    factor: Single,
    k: int,
    sum: Single,
    product: Single,
)
    requires
        arithmetic::lawful(arith),
        x.len() == y.len(),
        0 <= k < x.len(),
        call_ensures(A::add32, (&arith, x[k], y[k]), sum),
        call_ensures(A::mul32, (&arith, x[k], factor), product),
    ensures
        accumulated(arith, x, y).len() == x.len(),
        accumulated(arith, x, y)[k] == sum,
        scaled(arith, x, factor).len() == x.len(),
        scaled(arith, x, factor)[k] == product,
        origin(x.len())[k].bits == 0,
        origin(x.len()).len() == x.len(),
{
    reveal(arithmetic::lawful);
}

/// Embeddings have a centroid exactly if there are any and all have one dimension, and then it is
/// what the arithmetic answers for their mean.
pub proof fn centroids_are_means<A: Arithmetic>(arith: A, rows: Vec<Vector>, m: Vector)
    requires
        arithmetic::lawful(arith),
        call_ensures(A::mean, (&arith, &rows), m),
    ensures
        ({
            let c = centroid_of(arith, number::vectors_of(rows@));
            &&& c is Some <==> rows@.len() > 0 && forall|i: int, j: int|
                0 <= i < rows@.len() && 0 <= j < rows@.len() ==> (#[trigger] rows@[i])@.len() == (
                #[trigger] rows@[j])@.len()
            &&& c is Some ==> c->0 == m@
        }),
{
    let v = number::vectors_of(rows@);
    arithmetic::vector_names_are_answers(arith, m, m, rows, Single::nought(), m);
    if rows@.len() > 0 && uniform(v) {
        assert forall|i: int, j: int| 0 <= i < rows@.len() && 0 <= j < rows@.len() implies (
        #[trigger] rows@[i])@.len() == (#[trigger] rows@[j])@.len() by {
            assert(v[i].len() == v[0].len() && v[j].len() == v[0].len());
        }
    }
    if rows@.len() > 0 && forall|i: int, j: int|
        0 <= i < rows@.len() && 0 <= j < rows@.len() ==> (#[trigger] rows@[i])@.len() == (
        #[trigger] rows@[j])@.len() {
        assert forall|i: int| 0 <= i < v.len() implies (#[trigger] v[i]).len() == v[0].len() by {
            assert(rows@[i]@.len() == rows@[0]@.len());
        }
    }
}

} // verus!
