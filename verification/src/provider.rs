//! Inference: the engine that turns text into embeddings.

use crate::number::Single;
use crate::number::Vector;
use crate::text;
use vstd::prelude::*;

verus! {

/// Dimension of the embeddings of the product engine (all-MiniLM-L6-v2).
pub const EMBED_DIM: usize = 384;

/// An inference engine.
pub trait Provider {
    /// Dimension of the embeddings it produces.
    fn dim(&self) -> usize;

    /// Turns text into a dense embedding.
    fn embed(&self, text: &str) -> Vector;

    /// Expresses fragments as prose, for the context that a language model consumes. An engine that
    /// understands text can do better than to string them together.
    fn summarize(&self, fragments: &[&str]) -> (r: String)
        default_ensures
            r@ == text::joined(text::names_of(fragments@), " · "@),
    {
        string_together(fragments)
    }
}

/// Strings fragments together, with a middle dot between each two.
pub fn string_together(fragments: &[&str]) -> (r: String)
    ensures
        r@ == text::joined(text::names_of(fragments@), " · "@),
{
    text::join(&text::own_texts(fragments), " · ")
}

/// `v` is an embedding that the engine gives a text that holds `text`.
pub open spec fn embeds<P: Provider>(provider: P, text: Seq<char>, v: Seq<Single>) -> bool {
    exists|t: &str, w: Vector|
        t@ == text && w@ == v && #[trigger] call_ensures(P::embed, (&provider, t), w)
}

/// Turns text into a dense embedding.
pub fn embed<P: Provider>(provider: &P, text: &str) -> (r: Vector)
    ensures
        embeds(*provider, text@, r@),
{
    provider.embed(text)
}

/// An embedding of a text is what the engine answers for it, and nothing else is.
pub proof fn embeddings_are_answers<P: Provider>(provider: P, text: Seq<char>, v: Seq<Single>)
    ensures
        embeds(provider, text, v) <==> exists|t: &str, w: Vector|
            t@ == text && w@ == v && #[trigger] call_ensures(P::embed, (&provider, t), w),
{
}

} // verus!
