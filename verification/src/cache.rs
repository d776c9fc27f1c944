//! A cache of embeddings in front of an inference engine.
//!
//! To embed a text is the most expensive step of the pipeline. The cache remembers each embedding
//! by its whole text, so that a stimulus that is repeated is embedded once.

use crate::arithmetic;
use crate::arithmetic::Arithmetic;
use crate::entropy::ONE;
use crate::number;
use crate::number::Double;
use crate::number::Single;
use crate::number::Vector;
use crate::provider;
use crate::provider::Provider;
use crate::text;
use vstd::prelude::*;

verus! {

/// Statistics of a cache.
#[derive(Clone, Copy, Debug, PartialEq, Eq, Structural)]
pub struct CacheStats {
    pub hits: u64,
    pub misses: u64,
    pub entries: usize,
}

impl CacheStats {
    /// The share of queries that were answered from memory; one where nothing was asked.
    pub open spec fn rate<A: Arithmetic>(self, arith: A) -> Double {
        if self.hits + self.misses == 0 {
            Double { bits: ONE }
        } else {
            arithmetic::quotient64(
                arith,
                arithmetic::double_of(arith, self.hits),
                arithmetic::double_of(arith, (self.hits + self.misses) as u64),
            )
        }
    }

    /// The share of queries that were answered from memory; one where nothing was asked.
    pub fn hit_rate<A: Arithmetic>(&self, arith: &A) -> (r: Double)
        requires
            arithmetic::lawful(*arith),
            self.hits + self.misses <= u64::MAX,
        ensures
            r == self.rate(*arith),
    {
        let total: u64 = self.hits + self.misses;
        if total == 0 {
            Double { bits: ONE }
        } else {
            arithmetic::over64(
                arith,
                arithmetic::double_from(arith, self.hits),
                arithmetic::double_from(arith, total),
            )
        }
    }
}

/// Texts with their embeddings, and counts of the queries that found one and of those that did not.
/// The counts wrap around.
pub struct EmbeddingCache {
    entries: Vec<(String, Vector)>,
    hits: u64,
    misses: u64,
}

/// What a cache holds.
#[verifier::ext_equal]
pub struct CacheView {
    pub entries: Map<Seq<char>, Seq<Single>>,
    pub hits: u64,
    pub misses: u64,
}

/// The embeddings that a list of entries gives to texts.
pub open spec fn entries_of(s: Seq<(String, Vector)>) -> Map<Seq<char>, Seq<Single>>
    decreases s.len(),
{
    if s.len() == 0 {
        Map::empty()
    } else {
        entries_of(s.drop_last()).insert(s.last().0@, s.last().1@)
    }
}

/// No text has two entries.
pub open spec fn one_entry_each(s: Seq<(String, Vector)>) -> bool {
    forall|i: int, j: int|
        0 <= i < j < s.len() ==> (#[trigger] s[i]).0@ != (#[trigger] s[j]).0@
}

/// The texts of the entries are exactly those that the map knows.
proof fn entries_are_known(s: Seq<(String, Vector)>)
    requires
        one_entry_each(s),
    ensures
        forall|i: int|
            0 <= i < s.len() ==> entries_of(s).contains_key((#[trigger] s[i]).0@) && entries_of(
                s,
            )[s[i].0@] == s[i].1@,
        forall|k: Seq<char>| #[trigger]
            entries_of(s).contains_key(k) ==> exists|i: int|
                0 <= i < s.len() && (#[trigger] s[i]).0@ == k,
        entries_of(s).dom().finite(),
        entries_of(s).dom().len() == s.len(),
    decreases s.len(),
{
    if s.len() > 0 {
        let init = s.drop_last();
        let last = s.last();
        assert forall|i: int, j: int| 0 <= i < j < init.len() implies (#[trigger] init[i]).0@ != (
        #[trigger] init[j]).0@ by {
            assert(s[i].0@ != s[j].0@);
        }
        entries_are_known(init);
        assert(!entries_of(init).contains_key(last.0@)) by {
            if entries_of(init).contains_key(last.0@) {
                let i = choose|i: int| 0 <= i < init.len() && (#[trigger] init[i]).0@ == last.0@;
                assert(s[i].0@ != s[s.len() - 1].0@);
            }
        }
        assert(entries_of(s).dom() =~= entries_of(init).dom().insert(last.0@));
        assert forall|i: int| 0 <= i < s.len() implies entries_of(s).contains_key(
            (#[trigger] s[i]).0@,
        ) && entries_of(s)[s[i].0@] == s[i].1@ by {
            if i < init.len() {
                assert(init[i] == s[i]);
            }
        }
        assert forall|k: Seq<char>| #[trigger]
            entries_of(s).contains_key(k) implies exists|i: int|
            0 <= i < s.len() && (#[trigger] s[i]).0@ == k by {
            if k == last.0@ {
                assert(s[s.len() - 1].0@ == k);
            } else {
                let i = choose|i: int| 0 <= i < init.len() && (#[trigger] init[i]).0@ == k;
                assert(s[i].0@ == k);
            }
        }
    }
}

impl CacheView {
    /// The cache after a query for a text: whether it is known is counted.
    pub open spec fn asked(self, text: Seq<char>) -> CacheView {
        if self.entries.contains_key(text) {
            CacheView { hits: self.hits.wrapping_add(1), ..self }
        } else {
            CacheView { misses: self.misses.wrapping_add(1), ..self }
        }
    }

    /// The cache after the embedding of a text was stored.
    pub open spec fn learnt(self, text: Seq<char>, v: Seq<Single>) -> CacheView {
        CacheView { entries: self.entries.insert(text, v), ..self }
    }

    /// The cache after an embedding of a text was asked for, and came out as `v`.
    pub open spec fn served(self, text: Seq<char>, v: Seq<Single>) -> CacheView {
        if self.entries.contains_key(text) {
            self.asked(text)
        } else {
            self.asked(text).learnt(text, v)
        }
    }
}

impl View for EmbeddingCache {
    type V = CacheView;

    closed spec fn view(&self) -> CacheView {
        CacheView { entries: entries_of(self.entries@), hits: self.hits, misses: self.misses }
    }
}

impl EmbeddingCache {
    #[verifier::type_invariant]
    spec fn unambiguous(self) -> bool {
        one_entry_each(self.entries@)
    }

    /// A cache without entries.
    pub fn new() -> (r: EmbeddingCache)
        ensures
            r@ == (CacheView { entries: Map::empty(), hits: 0, misses: 0 }),
    {
        EmbeddingCache { entries: Vec::new(), hits: 0, misses: 0 }
    }

    /// Statistics of the cache.
    pub fn stats(&self) -> (r: CacheStats)
        ensures
            r.hits == self@.hits,
            r.misses == self@.misses,
            r.entries == self@.entries.dom().len(),
    {
        proof {
            use_type_invariant(self);
            entries_are_known(self.entries@);
        }
        CacheStats { hits: self.hits, misses: self.misses, entries: self.entries.len() }
    }

    /// The place of the entry of a text, or the number of entries where there is none.
    fn place(&self, text: &str) -> (r: usize)
        ensures
            r <= self.entries.len(),
            r < self.entries.len() ==> self.entries@[r as int].0@ == text@
                && self@.entries.contains_key(text@) && self@.entries[text@]
                == self.entries@[r as int].1@,
            r == self.entries.len() ==> !self@.entries.contains_key(text@),
    {
        proof {
            use_type_invariant(self);
            entries_are_known(self.entries@);
        }
        let mut i: usize = 0;
        while i < self.entries.len()
            invariant_except_break
                i <= self.entries.len(),
                forall|k: int| 0 <= k < i ==> (#[trigger] self.entries@[k]).0@ != text@,
            ensures
                i <= self.entries.len(),
                i < self.entries.len() ==> self.entries@[i as int].0@ == text@,
                i == self.entries.len() ==> forall|k: int|
                    0 <= k < i ==> (#[trigger] self.entries@[k]).0@ != text@,
            decreases self.entries.len() - i,
        {
            if text::same(self.entries[i].0.as_str(), text) {
                break;
            }
            i += 1;
        }
        i
    }

    /// The embedding of a text, where it is known. The query is counted.
    pub fn lookup(&mut self, text: &str) -> (r: Option<Vector>)
        ensures
            final(self)@ == old(self)@.asked(text@),
            match r {
                Some(v) => old(self)@.entries.contains_key(text@) && v@
                    == old(self)@.entries[text@],
                None => !old(self)@.entries.contains_key(text@),
            },
    {
        proof {
            use_type_invariant(&*self);
        }
        let i: usize = self.place(text);
        if i < self.entries.len() {
            let v = number::copy_vector(&self.entries[i].1);
            self.hits = self.hits.wrapping_add(1);
            Some(v)
        } else {
            self.misses = self.misses.wrapping_add(1);
            None
        }
    }

    /// Stores the embedding of a text, in place of the one it had.
    pub fn store(&mut self, text: &str, v: Vector)
        ensures
            final(self)@ == old(self)@.learnt(text@, v@),
    {
        let i: usize = self.place(text);
        let ghost before = self.entries@;
        proof {
            use_type_invariant(&*self);
            entries_are_known(before);
        }
        let mut entries: Vec<(String, Vector)> = Vec::new();
        std::mem::swap(&mut entries, &mut self.entries);
        let ghost new = (text@, v@);
        if i < entries.len() {
            entries.set(i, (text.to_owned(), v));
        } else {
            entries.push((text.to_owned(), v));
        }
        proof {
            let after = entries@;
            assert forall|a: int, b: int| 0 <= a < b < after.len() implies (#[trigger] after[a]).0@
                != (#[trigger] after[b]).0@ by {
                if b < before.len() {
                    assert(before[a].0@ != before[b].0@);
                } else {
                    assert(entries_of(before).contains_key(before[a].0@));
                }
            }
            entries_are_known(after);
            assert(after[i as int].0@ == text@);
            assert(entries_of(after) =~= entries_of(before).insert(text@, new.1)) by {
                assert forall|k: Seq<char>| #[trigger]
                    entries_of(after).contains_key(k) implies entries_of(before).insert(
                    text@,
                    new.1,
                ).contains_key(k) && entries_of(after)[k] == entries_of(before).insert(
                    text@,
                    new.1,
                )[k] by {
                    let a = choose|a: int| 0 <= a < after.len() && (#[trigger] after[a]).0@ == k;
                    if a != i {
                        assert(before[a] == after[a]);
                    }
                }
                assert forall|k: Seq<char>| #[trigger]
                    entries_of(before).insert(text@, new.1).contains_key(k) implies entries_of(
                    after,
                ).contains_key(k) by {
                    if k != text@ {
                        let a = choose|a: int|
                            0 <= a < before.len() && (#[trigger] before[a]).0@ == k;
                        assert(after[a] == before[a]);
                    }
                }
            }
        }
        self.entries = entries;
    }

    /// Forgets every entry. The counts stay.
    pub fn clear(&mut self)
        ensures
            final(self)@ == (CacheView { entries: Map::empty(), ..old(self)@ }),
    {
        self.entries = Vec::new();
    }
}

/// An inference engine behind a cache.
pub struct CachingProvider<P: Provider> {
    engine: P,
    cache: EmbeddingCache,
}

impl<P: Provider> View for CachingProvider<P> {
    type V = CacheView;

    closed spec fn view(&self) -> CacheView {
        self.cache@
    }
}

impl<P: Provider> CachingProvider<P> {
    /// The engine behind the cache.
    pub closed spec fn wrapped(&self) -> P {
        self.engine
    }

    /// Puts an empty cache in front of an engine.
    pub fn new(inner: P) -> (r: CachingProvider<P>)
        ensures
            r.wrapped() == inner,
            r@ == (CacheView { entries: Map::empty(), hits: 0, misses: 0 }),
    {
        CachingProvider { engine: inner, cache: EmbeddingCache::new() }
    }

    /// The engine behind the cache.
    pub fn inner(&self) -> (r: &P)
        ensures
            *r == self.wrapped(),
    {
        &self.engine
    }

    /// Statistics of the cache.
    pub fn stats(&self) -> (r: CacheStats)
        ensures
            r.hits == self@.hits,
            r.misses == self@.misses,
            r.entries == self@.entries.dom().len(),
    {
        self.cache.stats()
    }

    /// Forgets every entry. The counts stay.
    pub fn clear(&mut self)
        ensures
            final(self).wrapped() == old(self).wrapped(),
            final(self)@ == (CacheView { entries: Map::empty(), ..old(self)@ }),
    {
        self.cache.clear();
    }

    /// Dimension of the embeddings of the engine.
    pub fn dim(&self) -> (r: usize)
        ensures
            call_ensures(P::dim, (&self.wrapped(),), r),
    {
        self.engine.dim()
    }

    /// Turns text into a dense embedding. The engine is asked only where the text is not known.
    pub fn embed(&mut self, text: &str) -> (r: Vector)
        ensures
            final(self).wrapped() == old(self).wrapped(),
            final(self)@ == old(self)@.served(text@, r@),
            old(self)@.entries.contains_key(text@) ==> r@ == old(self)@.entries[text@],
            !old(self)@.entries.contains_key(text@) ==> provider::embeds(
                old(self).wrapped(),
                text@,
                r@,
            ),
    {
        match self.cache.lookup(text) {
            Some(v) => v,
            None => {
                let v = provider::embed(&self.engine, text);
                self.cache.store(text, number::copy_vector(&v));
                v
            },
        }
    }

    /// Expresses fragments as prose, as the engine does.
    pub fn summarize(&self, fragments: &[&str]) -> (r: String)
        ensures
            call_ensures(P::summarize, (&self.wrapped(), fragments), r),
    {
        self.engine.summarize(fragments)
    }
}

/// A text that was asked for is known from then on, with the embedding that came out, and asking
/// for it again changes nothing but the count of hits. What is known of other texts stays.
pub proof fn repeated_text_is_embedded_once(
    cache: CacheView,
    text: Seq<char>,
    v: Seq<Single>,
    other: Seq<char>,
)
    requires
        cache.entries.contains_key(text) ==> v == cache.entries[text],
    ensures
        ({
            let once = cache.served(text, v);
            &&& once.entries.contains_key(text)
            &&& once.entries[text] == v
            &&& once.served(text, v) == (CacheView { hits: once.hits.wrapping_add(1), ..once })
            &&& other != text ==> once.entries.contains_key(other) == cache.entries.contains_key(
                other,
            ) && (cache.entries.contains_key(other) ==> once.entries[other]
                == cache.entries[other])
        }),
{
}

/// Every query is counted once, as a hit or as a miss, as long as the counts do not wrap around.
pub proof fn queries_are_counted(cache: CacheView, text: Seq<char>, v: Seq<Single>)
    requires
        cache.hits < u64::MAX,
        cache.misses < u64::MAX,
    ensures
        cache.served(text, v).hits + cache.served(text, v).misses == cache.hits + cache.misses + 1,
        cache.served(text, v).hits == cache.hits + 1 <==> cache.entries.contains_key(text),
{
}

/// The hit rate is the hits over all queries, as the arithmetic answers; where nothing was asked it is one.
pub proof fn hit_rates_are_shares_of_queries<A: Arithmetic>(
    arith: A,
    stats: CacheStats,
    hits: Double,
    all: Double,
    r: Double,
)
    requires
        arithmetic::lawful(arith),
        stats.hits + stats.misses <= u64::MAX,
        call_ensures(A::count64, (&arith, stats.hits), hits),
        call_ensures(A::count64, (&arith, (stats.hits + stats.misses) as u64), all),
        call_ensures(A::div64, (&arith, hits, all), r),
    ensures
        stats.hits + stats.misses > 0 ==> stats.rate(arith) == r,
        stats.hits + stats.misses == 0 ==> stats.rate(arith).bits == ONE,
{
    reveal(arithmetic::lawful);
}

/// A query for what is known is a hit and changes nothing else; a query for what is not known is a miss,
/// and what comes out of it is kept, beside what was known.
pub proof fn known_texts_are_hits(cache: CacheView, text: Seq<char>, v: Seq<Single>)
    ensures
        cache.entries.contains_key(text) ==> {
            &&& cache.served(text, v).entries == cache.entries
            &&& cache.served(text, v).misses == cache.misses
            &&& cache.served(text, v).hits == cache.hits.wrapping_add(1)
        },
        !cache.entries.contains_key(text) ==> {
            &&& cache.served(text, v).entries == cache.entries.insert(text, v)
            &&& cache.served(text, v).hits == cache.hits
            &&& cache.served(text, v).misses == cache.misses.wrapping_add(1)
        },
{
}

} // verus!
