use vstd::prelude::*;

use crate::bigrams::{bigram_keys, dice, sorted_bigrams, Bigrams, Ratio};

verus! {

/// A fixed reference text against which other texts are scored by bigram
/// similarity. A scratch set is reused across calls, so scoring takes
/// `&mut self`.
pub struct Anchor {
    anchor: Bigrams,
    bigrams: Bigrams,
}

impl View for Anchor {
    type V = Seq<u64>;

    /// The sorted bigrams of the reference text.
    closed spec fn view(&self) -> Seq<u64> {
        self.anchor@
    }
}

impl Anchor {
    /// The reference bigrams are sorted.
    pub closed spec fn wf(&self) -> bool {
        self.anchor.wf()
    }

    pub fn new(text: &str) -> (r: Self)
        ensures
            r@ == sorted_bigrams(text@),
            r.wf(),
    {
        Anchor { anchor: Bigrams::build(text), bigrams: Bigrams::new() }
    }

    /// The similarity of `text` to the reference text.
    pub fn score(&mut self, text: &str) -> (r: Ratio)
        requires
            old(self).wf(),
        ensures
            final(self).wf(),
            final(self)@ == old(self)@,
            r == dice(sorted_bigrams(text@), old(self)@),
            r.num <= r.den,
            0 < r.den <= 2 * (usize::MAX as int),
    {
        self.bigrams.clear();
        self.bigrams.insert(text);
        assert(Seq::<u64>::empty() + bigram_keys(text@) =~= bigram_keys(text@));
        self.bigrams.similarity(&self.anchor)
    }
}

} // verus!
