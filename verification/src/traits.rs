//! The traits of a stimulus: a map from names to values that is read in the order of its names.

use crate::ranking;
use crate::text;
use vstd::prelude::*;

verus! {

/// The names and values that a list of pairs holds.
pub open spec fn pairs_of(s: Seq<(String, String)>) -> Seq<(Seq<char>, Seq<char>)> {
    Seq::new(s.len(), |i: int| (s[i].0@, s[i].1@))
}

/// The map that a list of pairs stands for.
pub open spec fn map_of(s: Seq<(Seq<char>, Seq<char>)>) -> Map<Seq<char>, Seq<char>> {
    Map::new(
        |k: Seq<char>| exists|i: int| 0 <= i < s.len() && (#[trigger] s[i]).0 == k,
        |k: Seq<char>| s[choose|i: int| 0 <= i < s.len() && (#[trigger] s[i]).0 == k].1,
    )
}

/// The pairs of a map.
pub open spec fn pair_in(m: Map<Seq<char>, Seq<char>>) -> spec_fn((Seq<char>, Seq<char>)) -> bool {
    |e: (Seq<char>, Seq<char>)| m.contains_key(e.0) && m[e.0] == e.1
}

/// Pairs are ordered by their names.
pub open spec fn name_order() -> spec_fn((Seq<char>, Seq<char>), (Seq<char>, Seq<char>)) -> bool {
    |a: (Seq<char>, Seq<char>), b: (Seq<char>, Seq<char>)| text::before(a.0, b.0)
}

/// The pairs of a map, in the order of their names.
pub open spec fn by_name(m: Map<Seq<char>, Seq<char>>) -> Seq<(Seq<char>, Seq<char>)> {
    ranking::listing(pair_in(m), name_order())
}

/// The values of a map, in the order of their names.
pub open spec fn values_by_name(m: Map<Seq<char>, Seq<char>>) -> Seq<Seq<char>> {
    let s = by_name(m);
    Seq::new(s.len(), |i: int| s[i].1)
}

/// Names ascend strictly.
pub open spec fn ascending(s: Seq<(Seq<char>, Seq<char>)>) -> bool {
    forall|i: int, j: int|
        0 <= i < j < s.len() ==> text::before((#[trigger] s[i]).0, (#[trigger] s[j]).0)
}

proof fn name_order_asymmetric()
    ensures
        ranking::asymmetric(name_order()),
{
    assert forall|a: (Seq<char>, Seq<char>), b: (Seq<char>, Seq<char>)|
        #[trigger] name_order()(a, b) implies !name_order()(b, a) by {
        if text::before(b.0, a.0) {
            text::before_transitive(a.0, b.0, a.0);
            text::before_irreflexive(a.0);
        }
    }
}

/// Ascending pairs have the value that their map gives to their name.
proof fn ascending_values(s: Seq<(Seq<char>, Seq<char>)>)
    requires
        ascending(s),
    ensures
        forall|i: int|
            0 <= i < s.len() ==> map_of(s).contains_key((#[trigger] s[i]).0) && map_of(s)[s[i].0]
                == s[i].1,
{
    assert forall|i: int| 0 <= i < s.len() implies map_of(s).contains_key((#[trigger] s[i]).0)
        && map_of(s)[s[i].0] == s[i].1 by {
        let k = choose|k: int| 0 <= k < s.len() && (#[trigger] s[k]).0 == s[i].0;
        text::before_irreflexive(s[i].0);
        if k < i {
            assert(text::before(s[k].0, s[i].0));
        } else if i < k {
            assert(text::before(s[i].0, s[k].0));
        }
    }
}

/// Ascending pairs are the pairs of their map in the order of their names.
proof fn ascending_is_by_name(s: Seq<(Seq<char>, Seq<char>)>)
    requires
        ascending(s),
    ensures
        s == by_name(map_of(s)),
        ranking::lists(s, pair_in(map_of(s)), name_order()),
{
    let m = map_of(s);
    ascending_values(s);
    name_order_asymmetric();
    assert forall|e: (Seq<char>, Seq<char>)| #[trigger] pair_in(m)(e) implies s.contains(e) by {
        let i = choose|i: int| 0 <= i < s.len() && (#[trigger] s[i]).0 == e.0;
        assert(s[i] == e);
    }
    assert forall|i: int, j: int| 0 <= i < j < s.len() implies name_order()(
        #[trigger] s[i],
        #[trigger] s[j],
    ) by {}
    assert forall|i: int| 0 <= i < s.len() implies pair_in(m)(#[trigger] s[i]) by {}
    ranking::lists_is_listing(s, pair_in(m), name_order());
}

/// The traits of a stimulus.
#[derive(Debug, PartialEq, Eq)]
pub struct Traits {
    pairs: Vec<(String, String)>,
}

impl View for Traits {
    type V = Map<Seq<char>, Seq<char>>;

    closed spec fn view(&self) -> Map<Seq<char>, Seq<char>> {
        map_of(pairs_of(self.pairs@))
    }
}

impl Traits {
    #[verifier::type_invariant]
    spec fn in_order(self) -> bool {
        ascending(pairs_of(self.pairs@))
    }

    /// No traits.
    pub fn new() -> (r: Traits)
        ensures
            r@ == Map::<Seq<char>, Seq<char>>::empty(),
    {
        let r = Traits { pairs: Vec::new() };
        assert(r@ =~= Map::<Seq<char>, Seq<char>>::empty());
        r
    }

    /// The pairs, in the order of their names.
    pub fn pairs(&self) -> (r: &Vec<(String, String)>)
        ensures
            pairs_of(r@) == by_name(self@),
            ranking::lists(by_name(self@), pair_in(self@), name_order()),
            r.len() == by_name(self@).len(),
    {
        proof {
            use_type_invariant(self);
            ascending_is_by_name(pairs_of(self.pairs@));
        }
        &self.pairs
    }

    /// The value of a trait.
    pub fn get(&self, name: &str) -> (r: Option<String>)
        ensures
            match r {
                Some(value) => self@.contains_key(name@) && value@ == self@[name@],
                None => !self@.contains_key(name@),
            },
    {
        proof {
            use_type_invariant(self);
            ascending_values(pairs_of(self.pairs@));
        }
        let mut i: usize = 0;
        while i < self.pairs.len()
            invariant
                i <= self.pairs.len(),
                forall|k: int|
                    0 <= k < self.pairs.len() ==> self@.contains_key(
                        (#[trigger] pairs_of(self.pairs@)[k]).0,
                    ) && self@[pairs_of(self.pairs@)[k].0] == pairs_of(self.pairs@)[k].1,
                forall|k: int| 0 <= k < i ==> (#[trigger] pairs_of(self.pairs@)[k]).0 != name@,
            decreases self.pairs.len() - i,
        {
            if text::same(self.pairs[i].0.as_str(), name) {
                assert(pairs_of(self.pairs@)[i as int].0 == name@);
                return Some(self.pairs[i].1.clone());
            }
            i += 1;
        }
        None
    }

    /// Gives a trait a value, in place of the one it had.
    pub fn insert(&mut self, name: &str, value: &str)
        ensures
            final(self)@ == old(self)@.insert(name@, value@),
    {
        proof {
            use_type_invariant(&*self);
        }
        let ghost before = pairs_of(self.pairs@);
        let mut pairs: Vec<(String, String)> = Vec::new();
        std::mem::swap(&mut pairs, &mut self.pairs);
        let mut i: usize = 0;
        while i < pairs.len() && text::precedes(pairs[i].0.as_str(), name)
            invariant
                i <= pairs.len(),
                before == pairs_of(pairs@),
                forall|k: int| 0 <= k < i ==> text::before((#[trigger] before[k]).0, name@),
            decreases pairs.len() - i,
        {
            assert(before[i as int].0 == pairs@[i as int].0@);
            i += 1;
        }
        let known = i < pairs.len() && text::same(pairs[i].0.as_str(), name);
        if known {
            pairs.set(i, (name.to_owned(), value.to_owned()));
            proof {
                let after = pairs_of(pairs@);
                assert(before[i as int].0 == name@);
                assert(after =~= before.update(i as int, (name@, value@)));
                assert forall|a: int, b: int| 0 <= a < b < after.len() implies text::before(
                    (#[trigger] after[a]).0,
                    (#[trigger] after[b]).0,
                ) by {
                    assert(text::before(before[a].0, before[b].0));
                }
                ascending_values(before);
                ascending_values(after);
                assert forall|k: Seq<char>| #[trigger]
                    map_of(after).contains_key(k) <==> map_of(before).insert(
                        name@,
                        value@,
                    ).contains_key(k) by {
                    if map_of(after).contains_key(k) {
                        let j = choose|j: int| 0 <= j < after.len() && (#[trigger] after[j]).0 == k;
                        assert(before[j].0 == k);
                    }
                    if map_of(before).contains_key(k) {
                        let j = choose|j: int|
                            0 <= j < before.len() && (#[trigger] before[j]).0 == k;
                        assert(after[j].0 == k);
                    }
                    assert(after[i as int].0 == name@);
                }
                assert forall|k: Seq<char>| #[trigger]
                    map_of(after).contains_key(k) implies map_of(after)[k] == map_of(before).insert(
                    name@,
                    value@,
                )[k] by {
                    let j = choose|j: int| 0 <= j < after.len() && (#[trigger] after[j]).0 == k;
                    assert(before[j].0 == k);
                    if j != i {
                        text::before_irreflexive(name@);
                        if j < i {
                            assert(text::before(before[j].0, before[i as int].0));
                        } else {
                            assert(text::before(before[i as int].0, before[j].0));
                        }
                    }
                }
                assert(map_of(after) =~= map_of(before).insert(name@, value@));
            }
        } else {
            proof {
                if i < before.len() {
                    assert(before[i as int].0 == pairs@[i as int].0@);
                    text::before_total(before[i as int].0, name@);
                    assert forall|k: int| i <= k < before.len() implies text::before(
                        name@,
                        (#[trigger] before[k]).0,
                    ) by {
                        if k > i {
                            assert(text::before(before[i as int].0, before[k].0));
                            text::before_transitive(name@, before[i as int].0, before[k].0);
                        }
                    }
                }
            }
            pairs.insert(i, (name.to_owned(), value.to_owned()));
            proof {
                let after = pairs_of(pairs@);
                assert(after =~= before.insert(i as int, (name@, value@)));
                assert forall|a: int, b: int| 0 <= a < b < after.len() implies text::before(
                    (#[trigger] after[a]).0,
                    (#[trigger] after[b]).0,
                ) by {
                    if a < i {
                        assert(after[a] == before[a]);
                        if b > i {
                            assert(after[b] == before[b - 1]);
                        } else if b < i {
                            assert(after[b] == before[b]);
                        }
                    } else {
                        assert(after[b] == before[b - 1]);
                        if a > i {
                            assert(after[a] == before[a - 1]);
                        }
                    }
                }
                ascending_values(before);
                ascending_values(after);
                assert forall|k: Seq<char>| #[trigger]
                    map_of(after).contains_key(k) <==> map_of(before).insert(
                        name@,
                        value@,
                    ).contains_key(k) by {
                    if map_of(after).contains_key(k) {
                        let j = choose|j: int| 0 <= j < after.len() && (#[trigger] after[j]).0 == k;
                        if j < i {
                            assert(before[j].0 == k);
                        } else if j > i {
                            assert(before[j - 1].0 == k);
                        }
                    }
                    if map_of(before).contains_key(k) {
                        let j = choose|j: int|
                            0 <= j < before.len() && (#[trigger] before[j]).0 == k;
                        if j < i {
                            assert(after[j].0 == k);
                        } else {
                            assert(after[j + 1].0 == k);
                        }
                    }
                    assert(after[i as int].0 == name@);
                }
                assert forall|k: Seq<char>| #[trigger]
                    map_of(after).contains_key(k) implies map_of(after)[k] == map_of(before).insert(
                    name@,
                    value@,
                )[k] by {
                    let j = choose|j: int| 0 <= j < after.len() && (#[trigger] after[j]).0 == k;
                    text::before_irreflexive(name@);
                    if j < i {
                        assert(before[j].0 == k);
                        assert(text::before(before[j].0, name@));
                    } else if j > i {
                        assert(before[j - 1].0 == k);
                        assert(text::before(name@, before[j - 1].0));
                    }
                }
                assert(map_of(after) =~= map_of(before).insert(name@, value@));
            }
        }
        self.pairs = pairs;
    }

    /// The values, in the order of their names, with a space between each two.
    pub fn values_text(&self) -> (r: String)
        ensures
            r@ == text::joined(values_by_name(self@), " "@),
    {
        let pairs = self.pairs();
        let ghost all = by_name(self@);
        let mut values: Vec<String> = Vec::new();
        let mut i: usize = 0;
        while i < pairs.len()
            invariant
                i <= pairs.len(),
                pairs_of(pairs@) == all,
                values.len() == i,
                forall|k: int| 0 <= k < i ==> (#[trigger] values@[k])@ == all[k].1,
            decreases pairs.len() - i,
        {
            assert(pairs_of(pairs@)[i as int].1 == pairs@[i as int].1@);
            values.push(pairs[i].1.clone());
            i += 1;
        }
        assert(text::texts_of(values@) =~= values_by_name(self@));
        text::join(&values, " ")
    }
}

impl Clone for Traits {
    fn clone(&self) -> (r: Traits)
        ensures
            r@ == self@,
    {
        proof {
            use_type_invariant(self);
        }
        let mut pairs: Vec<(String, String)> = Vec::new();
        let mut i: usize = 0;
        while i < self.pairs.len()
            invariant
                i <= self.pairs.len(),
                pairs.len() == i,
                forall|k: int|
                    0 <= k < i ==> (#[trigger] pairs@[k]).0@ == self.pairs@[k].0@ && pairs@[k].1@
                        == self.pairs@[k].1@,
            decreases self.pairs.len() - i,
        {
            pairs.push((self.pairs[i].0.clone(), self.pairs[i].1.clone()));
            i += 1;
        }
        assert(pairs_of(pairs@) =~= pairs_of(self.pairs@));
        Traits { pairs }
    }
}

/// Traits are read in the order of their names: pairs whose names ascend give a map that reads as those
/// pairs, whatever order they came in.
pub proof fn traits_are_read_by_name(s: Seq<(Seq<char>, Seq<char>)>)
    requires
        forall|i: int, j: int|
            0 <= i < j < s.len() ==> text::before((#[trigger] s[i]).0, (#[trigger] s[j]).0),
    ensures
        by_name(map_of(s)) == s,
        values_by_name(map_of(s)) == Seq::new(s.len(), |i: int| s[i].1),
        forall|i: int|
            0 <= i < s.len() ==> map_of(s).contains_key((#[trigger] s[i]).0) && map_of(s)[s[i].0]
                == s[i].1,
        forall|k: Seq<char>| #[trigger]
            map_of(s).contains_key(k) ==> exists|i: int| 0 <= i < s.len() && (#[trigger] s[i]).0 == k,
{
    ascending_is_by_name(s);
    ascending_values(s);
}

} // verus!
