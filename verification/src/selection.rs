//! Selecting from lists: what passes a test stays, in its order.

use vstd::prelude::*;

verus! {

/// The values behind a list of references.
pub open spec fn targets<T>(s: Seq<&T>) -> Seq<T> {
    Seq::new(s.len(), |i: int| *s[i])
}

/// The positions of the values that pass a test, in their order.
pub open spec fn places<T>(s: Seq<T>, kept: spec_fn(T) -> bool) -> Seq<int>
    decreases s.len(),
{
    if s.len() == 0 {
        Seq::empty()
    } else if kept(s.last()) {
        places(s.drop_last(), kept).push(s.len() - 1)
    } else {
        places(s.drop_last(), kept)
    }
}

/// The positions of the values that pass a test are exactly those, each once, in ascending order.
pub proof fn places_are_exact<T>(s: Seq<T>, kept: spec_fn(T) -> bool)
    ensures
        places(s, kept).len() <= s.len(),
        forall|j: int|
            0 <= j < places(s, kept).len() ==> 0 <= #[trigger] places(s, kept)[j] < s.len() && kept(
                s[places(s, kept)[j]],
            ),
        forall|i: int, j: int|
            0 <= i < j < places(s, kept).len() ==> #[trigger] places(s, kept)[i]
                < #[trigger] places(s, kept)[j],
        forall|i: int|
            0 <= i < s.len() && kept(#[trigger] s[i]) ==> places(s, kept).contains(i),
    decreases s.len(),
{
    if s.len() > 0 {
        let init = s.drop_last();
        places_are_exact(init, kept);
        assert forall|j: int| 0 <= j < places(s, kept).len() implies 0 <= #[trigger] places(
            s,
            kept,
        )[j] < s.len() && kept(s[places(s, kept)[j]]) by {
            if j < places(init, kept).len() {
                assert(places(init, kept)[j] < init.len());
                assert(init[places(init, kept)[j]] == s[places(init, kept)[j]]);
            }
        }
        assert forall|i: int, j: int| 0 <= i < j < places(s, kept).len() implies
            #[trigger] places(s, kept)[i] < #[trigger] places(s, kept)[j] by {
            assert(places(init, kept)[i] < init.len());
        }
        assert forall|i: int| 0 <= i < s.len() && kept(#[trigger] s[i]) implies places(
            s,
            kept,
        ).contains(i) by {
            if i < init.len() {
                assert(init[i] == s[i]);
                let k = choose|k: int| 0 <= k < places(init, kept).len() && places(init, kept)[k] == i;
                assert(places(s, kept)[k] == i);
            } else {
                assert(places(s, kept)[places(s, kept).len() - 1] == i);
            }
        }
    }
}

/// The values of a list that were answered with yes, in their order.
pub open spec fn picked<T>(s: Seq<T>, answers: Seq<bool>) -> Seq<T>
    decreases s.len(),
{
    if s.len() == 0 {
        Seq::empty()
    } else if answers[s.len() - 1] {
        picked(s.drop_last(), answers).push(s.last())
    } else {
        picked(s.drop_last(), answers)
    }
}

/// Each value of a list was answered as `says` allows.
pub open spec fn answered<T>(
    s: Seq<T>,
    says: spec_fn(T, bool) -> bool,
    answers: Seq<bool>,
) -> bool {
    answers.len() == s.len() && forall|i: int|
        0 <= i < s.len() ==> says(s[i], #[trigger] answers[i])
}

/// `r` is what is left of a list by answers that `says` allows: a value that comes twice may be
/// answered in two ways.
pub open spec fn sifted<T>(s: Seq<T>, says: spec_fn(T, bool) -> bool, r: Seq<T>) -> bool {
    exists|answers: Seq<bool>| #[trigger] answered(s, says, answers) && r == picked(s, answers)
}

/// The answers that a test can give.
pub open spec fn answers_of<T, F: Fn(&T) -> bool>(test: F) -> spec_fn(T, bool) -> bool {
    |x: T, b: bool| call_ensures(test, (&x,), b)
}

/// The opposites of answers.
pub open spec fn opposite<T>(says: spec_fn(T, bool) -> bool) -> spec_fn(T, bool) -> bool {
    |x: T, b: bool| says(x, !b)
}

/// The answers of a predicate.
pub open spec fn verdict<T>(kept: spec_fn(T) -> bool) -> spec_fn(T, bool) -> bool {
    |x: T, b: bool| b == kept(x)
}

/// Only values that pass a predicate are asked about; the others are out.
pub open spec fn among<T>(base: spec_fn(T) -> bool, says: spec_fn(T, bool) -> bool) -> spec_fn(
    T,
    bool,
) -> bool {
    |x: T, b: bool|
        if base(x) {
            says(x, b)
        } else {
            !b
        }
}

/// What was answered with yes depends on the answers to the values of the list alone.
proof fn picked_by_same_answers<T>(s: Seq<T>, a: Seq<bool>, b: Seq<bool>)
    requires
        forall|i: int| 0 <= i < s.len() ==> a[i] == b[i],
    ensures
        picked(s, a) == picked(s, b),
    decreases s.len(),
{
    if s.len() > 0 {
        picked_by_same_answers(s.drop_last(), a, b);
    }
}

/// What is left of a list is no longer than the list.
pub proof fn picked_is_shorter<T>(s: Seq<T>, answers: Seq<bool>)
    ensures
        picked(s, answers).len() <= s.len(),
    decreases s.len(),
{
    if s.len() > 0 {
        picked_is_shorter(s.drop_last(), answers);
    }
}

/// A test that answers as a predicate does leaves what the predicate keeps.
pub proof fn sifting_by_a_predicate<T>(
    s: Seq<T>,
    says: spec_fn(T, bool) -> bool,
    kept: spec_fn(T) -> bool,
    r: Seq<T>,
)
    requires
        sifted(s, says, r),
        forall|x: T, b: bool| #[trigger] says(x, b) ==> b == kept(x),
    ensures
        r == s.filter(kept),
{
    let answers = choose|answers: Seq<bool>| #[trigger]
        answered(s, says, answers) && r == picked(s, answers);
    assert forall|i: int| 0 <= i < s.len() implies #[trigger] answers[i] == kept(s[i]) by {
        assert(says(s[i], answers[i]));
    }
    picked_is_filter(s, answers, kept);
}

proof fn picked_is_filter<T>(s: Seq<T>, answers: Seq<bool>, kept: spec_fn(T) -> bool)
    requires
        forall|i: int| 0 <= i < s.len() ==> #[trigger] answers[i] == kept(s[i]),
    ensures
        picked(s, answers) == s.filter(kept),
    decreases s.len(),
{
    reveal(Seq::filter);
    if s.len() > 0 {
        let init = s.drop_last();
        assert forall|i: int| 0 <= i < init.len() implies #[trigger] answers[i] == kept(
            init[i],
        ) by {
            assert(init[i] == s[i]);
        }
        picked_is_filter(init, answers, kept);
        assert(answers[s.len() - 1] == kept(s.last()));
    } else {
        assert(picked(s, answers) =~= s.filter(kept));
    }
}

/// A list of which every value passes a test stays whole.
pub proof fn filter_settles<T>(s: Seq<T>, kept: spec_fn(T) -> bool)
    requires
        forall|i: int| 0 <= i < s.len() ==> kept(#[trigger] s[i]),
    ensures
        s.filter(kept) == s,
    decreases s.len(),
{
    reveal(Seq::filter);
    if s.len() > 0 {
        assert forall|i: int| 0 <= i < s.drop_last().len() implies kept(
            #[trigger] s.drop_last()[i],
        ) by {
            assert(s[i] == s.drop_last()[i]);
        }
        filter_settles(s.drop_last(), kept);
        assert(kept(s[s.len() - 1]));
        assert(s.filter(kept) =~= s);
    } else {
        assert(s.filter(kept) =~= s);
    }
}

/// What is kept of a list is no longer than the list.
pub proof fn filter_is_shorter<T>(s: Seq<T>, kept: spec_fn(T) -> bool)
    ensures
        s.filter(kept).len() <= s.len(),
    decreases s.len(),
{
    reveal(Seq::filter);
    if s.len() > 0 {
        filter_is_shorter(s.drop_last(), kept);
    }
}

/// What is kept of a list comes from the list and passes the test.
pub proof fn filter_is_faithful<T>(s: Seq<T>, kept: spec_fn(T) -> bool)
    ensures
        forall|i: int|
            0 <= i < s.filter(kept).len() ==> s.contains(#[trigger] s.filter(kept)[i]) && kept(
                s.filter(kept)[i],
            ),
    decreases s.len(),
{
    reveal(Seq::filter);
    if s.len() > 0 {
        let init = s.drop_last();
        filter_is_faithful(init, kept);
        assert forall|i: int| 0 <= i < s.filter(kept).len() implies s.contains(
            #[trigger] s.filter(kept)[i],
        ) && kept(s.filter(kept)[i]) by {
            if i < init.filter(kept).len() {
                let x = init.filter(kept)[i];
                assert(init.contains(x));
                let k = choose|k: int| 0 <= k < init.len() && init[k] == x;
                assert(s[k] == x);
            } else {
                assert(s[s.len() - 1] == s.filter(kept)[i]);
            }
        }
    }
}

/// References to the values that a test answers with yes.
pub(crate) fn sift<'a, T, F: Fn(&T) -> bool>(
    v: &'a Vec<T>,
    test: &F,
    Ghost(says): Ghost<spec_fn(T, bool) -> bool>,
) -> (r: Vec<&'a T>)
    requires
        forall|i: int| 0 <= i < v.len() ==> call_requires(*test, (&#[trigger] v@[i],)),
        forall|x: &T, b: bool| #[trigger] call_ensures(*test, (x,), b) ==> says(*x, b),
    ensures
        sifted(v@, says, targets(r@)),
{
    let mut out: Vec<&'a T> = Vec::new();
    let ghost mut answers: Seq<bool> = Seq::empty();
    let mut i: usize = 0;
    proof {
        assert(targets(out@) =~= picked(v@.take(0), answers));
    }
    while i < v.len()
        invariant
            i <= v.len(),
            forall|k: int| 0 <= k < v.len() ==> call_requires(*test, (&#[trigger] v@[k],)),
            forall|x: &T, b: bool| #[trigger] call_ensures(*test, (x,), b) ==> says(*x, b),
            answers.len() == i,
            forall|k: int| 0 <= k < i ==> says(v@[k], #[trigger] answers[k]),
            targets(out@) == picked(v@.take(i as int), answers),
        decreases v.len() - i,
    {
        let x = &v[i];
        let ghost prior = targets(out@);
        assert(call_requires(*test, (&v@[i as int],)));
        let yes: bool = test(x);
        let ghost had = answers;
        proof {
            answers = answers.push(yes);
            assert(v@.take(i + 1).drop_last() =~= v@.take(i as int));
            picked_by_same_answers(v@.take(i as int), had, answers);
            assert forall|k: int| 0 <= k < i + 1 implies says(v@[k], #[trigger] answers[k]) by {
                if k < i {
                    assert(answers[k] == had[k]);
                }
            }
        }
        if yes {
            out.push(x);
            assert(targets(out@) =~= prior.push(*x));
        }
        i += 1;
    }
    proof {
        assert(v@.take(i as int) =~= v@);
        assert(answered(v@, says, answers));
    }
    out
}

/// References to the values that pass a test, for a test whose answers are given.
pub(crate) fn select<'a, T, F: Fn(&T) -> bool>(
    v: &'a Vec<T>,
    test: &F,
    Ghost(kept): Ghost<spec_fn(T) -> bool>,
) -> (r: Vec<&'a T>)
    requires
        forall|x: &T| #[trigger] call_requires(*test, (x,)),
        forall|x: &T, b: bool| #[trigger] call_ensures(*test, (x,), b) ==> b == kept(*x),
    ensures
        targets(r@) == v@.filter(kept),
{
    let r = sift(v, test, Ghost(verdict(kept)));
    proof {
        sifting_by_a_predicate(v@, verdict(kept), kept, targets(r@));
    }
    r
}

/// Drops the values that a test does not answer with yes; returns how many were dropped.
pub(crate) fn retain<T, F: Fn(&T) -> bool>(
    v: &mut Vec<T>,
    test: &F,
    Ghost(says): Ghost<spec_fn(T, bool) -> bool>,
) -> (r: usize)
    requires
        forall|i: int| 0 <= i < old(v).len() ==> call_requires(*test, (&#[trigger] old(v)@[i],)),
        forall|x: &T, b: bool| #[trigger] call_ensures(*test, (x,), b) ==> says(*x, b),
    ensures
        sifted(old(v)@, says, final(v)@),
        r == old(v)@.len() - final(v)@.len(),
{
    let ghost all = v@;
    let total: usize = v.len();
    let mut source: Vec<T> = Vec::new();
    std::mem::swap(v, &mut source);
    let mut stack: Vec<T> = Vec::new();
    while source.len() > 0
        invariant
            source.len() <= all.len(),
            source@ == all.take(source.len() as int),
            stack@ == all.skip(source.len() as int).reverse(),
        decreases source.len(),
    {
        let ghost n = source.len() as int;
        match source.pop() {
            Some(x) => {
                stack.push(x);
                proof {
                    assert(all.skip(n - 1) =~= seq![all[n - 1]] + all.skip(n));
                    assert(stack@ =~= all.skip(n - 1).reverse());
                }
            },
            None => {},
        }
    }
    let mut out: Vec<T> = Vec::new();
    let ghost mut answers: Seq<bool> = Seq::empty();
    let ghost mut i: int = 0;
    proof {
        assert(out@ =~= picked(all.take(0), answers));
    }
    while stack.len() > 0
        invariant
            0 <= i <= all.len(),
            forall|k: int| 0 <= k < all.len() ==> call_requires(*test, (&#[trigger] all[k],)),
            forall|x: &T, b: bool| #[trigger] call_ensures(*test, (x,), b) ==> says(*x, b),
            stack.len() == all.len() - i,
            stack@ == all.skip(i).reverse(),
            answers.len() == i,
            forall|k: int| 0 <= k < i ==> says(all[k], #[trigger] answers[k]),
            out@ == picked(all.take(i), answers),
            out.len() <= i,
        decreases stack.len(),
    {
        proof {
            assert(all.take(i + 1).drop_last() =~= all.take(i));
            assert(stack@.last() == all[i]);
            assert(stack@.drop_last() =~= all.skip(i + 1).reverse());
            assert(call_requires(*test, (&all[i],)));
        }
        match stack.pop() {
            Some(x) => {
                let yes: bool = test(&x);
                let ghost had = answers;
                proof {
                    answers = answers.push(yes);
                    picked_by_same_answers(all.take(i), had, answers);
                    assert forall|k: int| 0 <= k < i + 1 implies says(
                        all[k],
                        #[trigger] answers[k],
                    ) by {
                        if k < i {
                            assert(answers[k] == had[k]);
                        }
                    }
                }
                if yes {
                    out.push(x);
                }
            },
            None => {},
        }
        proof {
            i = i + 1;
        }
    }
    proof {
        assert(all.take(i) =~= all);
        assert(answered(all, says, answers));
    }
    let left: usize = out.len();
    *v = out;
    total - left
}

/// What is kept of a list are exactly the values of the list that pass the test.
pub proof fn filter_members<T>(s: Seq<T>, kept: spec_fn(T) -> bool, x: T)
    ensures
        s.filter(kept).contains(x) <==> s.contains(x) && kept(x),
    decreases s.len(),
{
    reveal(Seq::filter);
    if s.len() > 0 {
        let init = s.drop_last();
        filter_members(init, kept, x);
        let t = init.filter(kept);
        assert(s.contains(x) <==> init.contains(x) || x == s.last()) by {
            if s.contains(x) {
                let i = choose|i: int| 0 <= i < s.len() && s[i] == x;
                if i < init.len() {
                    assert(init[i] == x);
                }
            }
            if init.contains(x) {
                let i = choose|i: int| 0 <= i < init.len() && init[i] == x;
                assert(s[i] == x);
            }
            assert(s[s.len() - 1] == s.last());
        }
        if kept(s.last()) {
            assert(s.filter(kept) == t.push(s.last()));
            if t.contains(x) {
                let i = choose|i: int| 0 <= i < t.len() && t[i] == x;
                assert(t.push(s.last())[i] == x);
            }
            assert(t.push(s.last())[t.len() as int] == s.last());
            if t.push(s.last()).contains(x) && x != s.last() {
                let i = choose|i: int| 0 <= i < t.len() + 1 && t.push(s.last())[i] == x;
                assert(t[i] == x);
            }
        }
    }
}

/// What is kept of a list are the values at the places that pass the test, in their order.
pub proof fn filter_is_by_places<T>(s: Seq<T>, kept: spec_fn(T) -> bool)
    ensures
        s.filter(kept).len() == places(s, kept).len(),
        forall|j: int|
            0 <= j < places(s, kept).len() ==> #[trigger] s.filter(kept)[j] == s[places(s, kept)[j]],
    decreases s.len(),
{
    reveal(Seq::filter);
    if s.len() > 0 {
        let init = s.drop_last();
        filter_is_by_places(init, kept);
        places_are_exact(init, kept);
        assert forall|j: int| 0 <= j < places(s, kept).len() implies #[trigger] s.filter(kept)[j]
            == s[places(s, kept)[j]] by {
            if j < places(init, kept).len() {
                assert(init.filter(kept)[j] == init[places(init, kept)[j]]);
            }
        }
    }
}

/// A looser test keeps no fewer values.
pub proof fn looser_tests_keep_more<T>(
    s: Seq<T>,
    strict: spec_fn(T) -> bool,
    loose: spec_fn(T) -> bool,
)
    requires
        forall|i: int| 0 <= i < s.len() && strict(s[i]) ==> #[trigger] loose(s[i]),
    ensures
        s.filter(strict).len() <= s.filter(loose).len(),
    decreases s.len(),
{
    reveal(Seq::filter);
    if s.len() > 0 {
        let init = s.drop_last();
        assert forall|i: int| 0 <= i < init.len() && strict(init[i]) implies #[trigger] loose(
            init[i],
        ) by {
            assert(init[i] == s[i]);
            assert(loose(s[i]));
        }
        looser_tests_keep_more(init, strict, loose);
        assert(strict(s[s.len() - 1]) ==> loose(s[s.len() - 1]));
    }
}

/// What a test that answers as a predicate does decides: where what passes is swept, exactly what does not
/// pass stays; where only some values are asked about, exactly those of them that pass stay.
pub proof fn tests_decide_what_stays<T, F: Fn(&T) -> bool>(
    test: F,
    passes: spec_fn(T) -> bool,
    base: spec_fn(T) -> bool,
    s: Seq<T>,
    r: Seq<T>,
)
    requires
        forall|x: T, b: bool| #[trigger] call_ensures(test, (&x,), b) ==> b == passes(x),
    ensures
        sifted(s, opposite(answers_of(test)), r) ==> r == s.filter(|x: T| !passes(x)),
        sifted(s, among(base, answers_of(test)), r) ==> r == s.filter(|x: T| base(x) && passes(x)),
{
    let swept = |x: T| !passes(x);
    let kept = |x: T| base(x) && passes(x);
    if sifted(s, opposite(answers_of(test)), r) {
        let says = opposite(answers_of(test));
        assert forall|x: T, b: bool| #[trigger] says(x, b) implies b == swept(x) by {
            assert(call_ensures(test, (&x,), !b));
        }
        sifting_by_a_predicate(s, says, swept, r);
    }
    if sifted(s, among(base, answers_of(test)), r) {
        let says = among(base, answers_of(test));
        assert forall|x: T, b: bool| #[trigger] says(x, b) implies b == kept(x) by {
            if base(x) {
                assert(call_ensures(test, (&x,), b));
            }
        }
        sifting_by_a_predicate(s, says, kept, r);
    }
}

/// Whatever a test answers, what stays of a list are values of the list, in their order, each put to the
/// test and answered with yes; what does not stay was answered with no.
pub proof fn answers_decide_what_stays<T>(s: Seq<T>, says: spec_fn(T, bool) -> bool, r: Seq<T>, x: T)
    requires
        sifted(s, says, r),
    ensures
        r.contains(x) ==> s.contains(x) && says(x, true),
        s.contains(x) && !r.contains(x) ==> says(x, false),
        r.len() <= s.len(),
{
    let answers = choose|answers: Seq<bool>| #[trigger]
        answered(s, says, answers) && r == picked(s, answers);
    picked_is_shorter(s, answers);
    picked_members(s, answers, x);
    if r.contains(x) {
        let i = choose|i: int| 0 <= i < s.len() && s[i] == x && answers[i];
        assert(says(s[i], answers[i]));
    }
    if s.contains(x) && !r.contains(x) {
        let i = choose|i: int| 0 <= i < s.len() && s[i] == x;
        assert(says(s[i], answers[i]));
    }
}

proof fn picked_members<T>(s: Seq<T>, answers: Seq<bool>, x: T)
    ensures
        picked(s, answers).contains(x) <==> exists|i: int|
            0 <= i < s.len() && s[i] == x && answers[i],
    decreases s.len(),
{
    if s.len() > 0 {
        let init = s.drop_last();
        let n = s.len() - 1;
        picked_members(init, answers, x);
        let t = picked(init, answers);
        if picked(s, answers).contains(x) {
            if t.contains(x) {
                let i = choose|i: int| 0 <= i < init.len() && init[i] == x && answers[i];
                assert(s[i] == x && answers[i]);
            } else {
                let j = choose|j: int|
                    0 <= j < picked(s, answers).len() && picked(s, answers)[j] == x;
                if j < t.len() {
                    assert(t[j] == x);
                }
                assert(s[n] == x && answers[n]);
            }
        }
        if exists|i: int| 0 <= i < s.len() && s[i] == x && answers[i] {
            let i = choose|i: int| 0 <= i < s.len() && s[i] == x && answers[i];
            if i < n {
                assert(init[i] == x && answers[i]);
                let j = choose|j: int| 0 <= j < t.len() && t[j] == x;
                assert(picked(s, answers)[j] == x);
            } else {
                assert(picked(s, answers)[t.len() as int] == x);
            }
        }
    }
}

} // verus!
