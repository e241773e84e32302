use vstd::prelude::*;

use vstd::multiset::Multiset;
use vstd::relations::total_ordering;

use crate::text::chars_of;

verus! {

/// The packed key of the ordered character pair `(hi, lo)`: `hi` in the
/// upper 32 bits, `lo` in the lower 32 bits.
pub open spec fn pack(hi: char, lo: char) -> u64 {
    ((hi as u32) as int * 0x1_0000_0000 + (lo as u32) as int) as u64
}

/// The keys of the adjacent character pairs of `s`, in the order they occur.
pub open spec fn bigram_keys(s: Seq<char>) -> Seq<u64> {
    Seq::new((if s.len() < 2 { 0 } else { s.len() - 1 }) as nat, |i: int| pack(s[i], s[i + 1]))
}

pub open spec fn key_leq() -> spec_fn(u64, u64) -> bool {
    |a: u64, b: u64| a <= b
}

/// The bigram keys of `s`, sorted ascending.
pub open spec fn sorted_bigrams(s: Seq<char>) -> Seq<u64> {
    bigram_keys(s).sort_by(key_leq())
}

pub open spec fn is_sorted(s: Seq<u64>) -> bool {
    forall|i: int, j: int| 0 <= i <= j < s.len() ==> s[i] <= s[j]
}

/// The number of equal keys that a merge of `a` and `b` pairs up, stepping
/// past the smaller head where the heads differ.
pub open spec fn common(a: Seq<u64>, b: Seq<u64>) -> nat
    decreases a.len() + b.len(),
{
    if a.len() == 0 || b.len() == 0 {
        0
    } else if a[0] == b[0] {
        1 + common(a.drop_first(), b.drop_first())
    } else if a[0] < b[0] {
        common(a.drop_first(), b)
    } else {
        common(a, b.drop_first())
    }
}

/// A non-negative rational number `num / den`.
#[derive(Clone, Copy, Debug, PartialEq, Eq, Structural)]
pub struct Ratio {
    pub num: u128,
    pub den: u128,
}

/// The number of keys that `a` and `b` have in common, counted with
/// multiplicity: the size of their intersection as multisets.
pub open spec fn shared(a: Seq<u64>, b: Seq<u64>) -> nat {
    a.to_multiset().intersection_with(b.to_multiset()).len()
}

/// The Sørensen–Dice coefficient of two bigram sequences, as a ratio:
/// `2 * |a ∩ b| / (|a| + |b|)`, and exactly zero when either is empty.
pub open spec fn dice(a: Seq<u64>, b: Seq<u64>) -> Ratio {
    if a.len() == 0 || b.len() == 0 {
        Ratio { num: 0, den: 1 }
    } else {
        Ratio { num: (2 * shared(a, b)) as u128, den: (a.len() + b.len()) as u128 }
    }
}

/// Sorting keeps the length and leaves the keys in ascending order.
pub proof fn lemma_sorted_keys(s: Seq<u64>)
    ensures
        s.sort_by(key_leq()).len() == s.len(),
        is_sorted(s.sort_by(key_leq())),
{
    let leq = key_leq();
    assert(total_ordering(leq));
    s.lemma_sort_by_ensures(leq);
    s.to_multiset_ensures();
    s.sort_by(leq).to_multiset_ensures();
    let t = s.sort_by(leq);
    assert forall|i: int, j: int| 0 <= i <= j < t.len() implies t[i] <= t[j] by {
        if i < j {
            assert(leq(t[i], t[j]));
        }
    }
}

/// Relies on `<[u64]>::sort_unstable`: the slice ends up sorted ascending,
/// and for a totally ordered key type the sorted order is unique.
#[verifier::external_body]
fn sort_keys(v: &mut Vec<u64>)
    ensures
        final(v)@ == old(v)@.sort_by(key_leq()),
{
    v.sort_unstable();
}

/// The bigram keys of a string, kept sorted ascending.
pub struct Bigrams {
    grams: Vec<u64>,
}

impl View for Bigrams {
    type V = Seq<u64>;

    closed spec fn view(&self) -> Seq<u64> {
        self.grams@
    }
}

/// Appends to `container` the key of each adjacent character pair of `text`.
pub fn bigrams(text: &str, container: &mut Vec<u64>)
    ensures
        final(container)@ == old(container)@ + bigram_keys(text@),
{
    let chars = chars_of(text);
    let n = chars.len();
    if n < 2 {
        assert(bigram_keys(text@) =~= Seq::<u64>::empty());
        assert(container@ =~= old(container)@ + bigram_keys(text@));
        return;
    }
    let mut i: usize = 1;
    while i < n
        invariant
            1 <= i <= n,
            n == chars@.len(),
            chars@ == text@,
            container@ == old(container)@ + bigram_keys(text@).subrange(0, i - 1),
        decreases n - i,
    {
        let hi = chars[i - 1];
        let lo = chars[i];
        let gram: u64 = (hi as u32 as u64) * 0x1_0000_0000 + (lo as u32 as u64);
        container.push(gram);
        assert(bigram_keys(text@).subrange(0, i as int) =~= bigram_keys(text@).subrange(
            0,
            i - 1,
        ).push(pack(hi, lo)));
        i = i + 1;
    }
    assert(bigram_keys(text@).subrange(0, n - 1) =~= bigram_keys(text@));
}

impl Bigrams {
    /// Bigram keys are sorted ascending.
    pub open spec fn wf(&self) -> bool {
        is_sorted(self@)
    }

    pub fn new() -> (r: Self)
        ensures
            r@ == Seq::<u64>::empty(),
            r.wf(),
    {
        Bigrams { grams: Vec::new() }
    }

    pub fn build(text: &str) -> (r: Self)
        ensures
            r@ == sorted_bigrams(text@),
            r.wf(),
    {
        let mut set = Bigrams::new();
        set.insert(text);
        assert(Seq::<u64>::empty() + bigram_keys(text@) =~= bigram_keys(text@));
        set
    }

    pub fn clear(&mut self)
        ensures
            final(self)@ == Seq::<u64>::empty(),
            final(self).wf(),
    {
        self.grams.clear();
    }

    /// Adds the bigrams of `text` to the set, which stays sorted.
    pub fn insert(&mut self, text: &str)
        ensures
            final(self)@ == (old(self)@ + bigram_keys(text@)).sort_by(key_leq()),
            final(self).wf(),
    {
        bigrams(text, &mut self.grams);
        sort_keys(&mut self.grams);
        proof {
            lemma_sorted_keys(old(self)@ + bigram_keys(text@));
        }
    }

    pub fn len(&self) -> (r: usize)
        ensures
            r == self@.len(),
    {
        self.grams.len()
    }

    pub fn is_empty(&self) -> (r: bool)
        ensures
            r == (self@.len() == 0),
    {
        self.grams.len() == 0
    }

    /// The Sørensen–Dice coefficient of the two sets of bigrams, between
    /// zero and one; exactly zero when either set is empty.
    pub fn similarity(&self, other: &Bigrams) -> (r: Ratio)
        requires
            self.wf(),
            other.wf(),
        ensures
            r == dice(self@, other@),
            r.num <= r.den,
            0 < r.den <= 2 * (usize::MAX as int),
    {
        if self.is_empty() || other.is_empty() {
            return Ratio { num: 0, den: 1 };
        }
        let bigrams1 = &self.grams;
        let bigrams2 = &other.grams;
        let card1 = self.len();
        let card2 = other.len();
        let mut matches: usize = 0;
        let mut i: usize = 0;
        let mut j: usize = 0;
        proof {
            assert(bigrams1@.subrange(0, card1 as int) =~= bigrams1@);
            assert(bigrams2@.subrange(0, card2 as int) =~= bigrams2@);
        }
        while i < card1 && j < card2
            invariant
                i <= card1,
                j <= card2,
                card1 == bigrams1@.len(),
                card2 == bigrams2@.len(),
                matches <= i,
                matches + common(bigrams1@.subrange(i as int, card1 as int), bigrams2@.subrange(j as int, card2 as int))
                    == common(bigrams1@, bigrams2@),
            decreases card1 + card2 - i - j,
        {
            proof {
                let a = bigrams1@.subrange(i as int, card1 as int);
                let b = bigrams2@.subrange(j as int, card2 as int);
                assert(a.drop_first() =~= bigrams1@.subrange(i + 1, card1 as int));
                assert(b.drop_first() =~= bigrams2@.subrange(j + 1, card2 as int));
            }
            if bigrams1[i] == bigrams2[j] {
                matches = matches + 1;
                i = i + 1;
                j = j + 1;
            } else if bigrams1[i] < bigrams2[j] {
                i = i + 1;
            } else {
                j = j + 1;
            }
        }
        proof {
            lemma_common_bound(bigrams1@, bigrams2@);
            lemma_common_shared(bigrams1@, bigrams2@);
        }
        Ratio { num: 2 * (matches as u128), den: card1 as u128 + card2 as u128 }
    }
}

/// No more keys are paired up than either sequence holds.
proof fn lemma_common_bound(a: Seq<u64>, b: Seq<u64>)
    ensures
        common(a, b) <= a.len(),
        common(a, b) <= b.len(),
    decreases a.len() + b.len(),
{
    if a.len() > 0 && b.len() > 0 {
        if a[0] == b[0] {
            lemma_common_bound(a.drop_first(), b.drop_first());
        } else if a[0] < b[0] {
            lemma_common_bound(a.drop_first(), b);
        } else {
            lemma_common_bound(a, b.drop_first());
        }
    }
}

/// The multiset of a non-empty sequence is that of its tail with its head
/// added.
proof fn lemma_multiset_head(a: Seq<u64>)
    requires
        a.len() > 0,
    ensures
        a.to_multiset() =~= a.drop_first().to_multiset().insert(a[0]),
{
    broadcast use vstd::multiset::group_multiset_axioms;

    a.to_multiset_ensures();
    assert(a.remove(0) =~= a.drop_first());
    assert(a.contains(a[0]));
}

/// A key below every key of a sorted sequence does not occur in it.
proof fn lemma_below_absent(b: Seq<u64>, x: u64)
    requires
        is_sorted(b),
        b.len() > 0,
        x < b[0],
    ensures
        b.to_multiset().count(x) == 0,
{
    b.to_multiset_ensures();
    if b.contains(x) {
        let j = choose|j: int| 0 <= j < b.len() && b[j] == x;
        assert(b[0] <= b[j]);
    }
}

/// On sorted sequences the merge pairs up exactly the keys they share.
proof fn lemma_common_shared(a: Seq<u64>, b: Seq<u64>)
    requires
        is_sorted(a),
        is_sorted(b),
    ensures
        common(a, b) == shared(a, b),
    decreases a.len() + b.len(),
{
    broadcast use vstd::multiset::group_multiset_axioms;
    broadcast use vstd::multiset::lemma_intersection_count;

    let ma = a.to_multiset();
    let mb = b.to_multiset();
    if a.len() == 0 || b.len() == 0 {
        a.to_multiset_ensures();
        b.to_multiset_ensures();
        assert(ma.intersection_with(mb) =~= Multiset::empty());
    } else {
        let a1 = a.drop_first();
        let b1 = b.drop_first();
        assert(is_sorted(a1));
        assert(is_sorted(b1));
        lemma_multiset_head(a);
        lemma_multiset_head(b);
        if a[0] == b[0] {
            lemma_common_shared(a1, b1);
            let m1 = a1.to_multiset().intersection_with(b1.to_multiset());
            assert(ma.intersection_with(mb) =~= m1.insert(a[0]));
        } else if a[0] < b[0] {
            lemma_common_shared(a1, b);
            lemma_below_absent(b, a[0]);
            assert(ma.intersection_with(mb) =~= a1.to_multiset().intersection_with(mb));
        } else {
            lemma_common_shared(a, b1);
            lemma_below_absent(a, b[0]);
            assert(ma.intersection_with(mb) =~= ma.intersection_with(b1.to_multiset()));
        }
    }
}

/// A text of two or more characters is fully similar to itself: the
/// coefficient's numerator equals its (non-zero) denominator.
pub proof fn lemma_similarity_of_equal_text(s: Seq<char>)
    requires
        2 <= s.len() <= usize::MAX,
    ensures
        dice(sorted_bigrams(s), sorted_bigrams(s)).num == dice(sorted_bigrams(s), sorted_bigrams(s)).den,
        dice(sorted_bigrams(s), sorted_bigrams(s)).den > 0,
{
    broadcast use vstd::multiset::group_multiset_axioms;
    broadcast use vstd::multiset::lemma_intersection_count;

    let t = sorted_bigrams(s);
    lemma_sorted_keys(bigram_keys(s));
    t.to_multiset_ensures();
    assert(t.to_multiset().intersection_with(t.to_multiset()) =~= t.to_multiset());
}

/// A text of fewer than two characters has no bigrams, so its similarity
/// with any text is exactly zero.
pub proof fn lemma_similarity_of_short_text(a: Seq<char>, b: Seq<char>)
    requires
        a.len() < 2 || b.len() < 2,
    ensures
        dice(sorted_bigrams(a), sorted_bigrams(b)) == (Ratio { num: 0, den: 1 }),
{
    lemma_sorted_keys(bigram_keys(a));
    lemma_sorted_keys(bigram_keys(b));
}

/// Similarity is symmetric.
pub proof fn lemma_similarity_symmetric(a: Seq<u64>, b: Seq<u64>)
    ensures
        dice(a, b) == dice(b, a),
{
    broadcast use vstd::multiset::group_multiset_axioms;
    broadcast use vstd::multiset::lemma_intersection_count;

    assert(a.to_multiset().intersection_with(b.to_multiset()) =~= b.to_multiset().intersection_with(
        a.to_multiset(),
    ));
}

} // verus!
