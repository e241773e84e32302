use vstd::prelude::*;

use vstd::relations::{sorted_by, total_ordering};
use vstd::utf8::encode_utf8;

use crate::anchor::Anchor;
use crate::bigrams::{dice, sorted_bigrams, Ratio};
use crate::pattern::{find, first_match, fuzzy_source, has_fuzzy_pattern, has_upper, pattern, Pattern};
use crate::text::chars_of;

verus! {

/// The ranking key is on a scale of `0..=MAX_KEY`.
pub const MAX_KEY: u32 = 100000;

/// Weight of match closeness in the ranking key (nine tenths of the scale).
pub const CLOSENESS_WEIGHT: u128 = 90000;

/// Weight of anchor similarity in the ranking key (one tenth of the scale).
pub const SIMILARITY_WEIGHT: u128 = 10000;

/// The largest closeness denominator of a line whose length fits in a
/// `usize`: `100 * (usize::MAX + 1) + usize::MAX + 1`.
pub const MAX_DEN: u128 = 101 * 0x1_0000_0000_0000_0000;

/// How closely a match of `width` bytes fits a line of `len` bytes:
/// `1 / (width + 1 + (len + 1) / 100)`, written as `100 / (100 * (width + 1) + len + 1)`.
pub open spec fn closeness(width: int, len: int) -> Ratio {
    Ratio { num: 100, den: (100 * (width + 1) + len + 1) as u128 }
}

/// No anchor similarity: zero.
pub open spec fn zero_ratio() -> Ratio {
    Ratio { num: 0, den: 1 }
}

/// The two parts of a line's score.
#[derive(Clone, Copy, Debug)]
pub struct Score {
    /// How closely the term matches the line; larger is closer.
    pub regex: Ratio,
    /// Bigram similarity of the line to the anchor; zero without anchor.
    pub similarity: Ratio,
}

/// The closeness of `100 / d`, normalised to `0..=1` and weighted, as a
/// fraction `(num, den)`, where the closeness values being ranked run from
/// `100 / hi` up to `100 / lo`. With `c = 100 / d`, the normalised value
/// `(c - 100 / hi) / (100 / lo - 100 / hi)` is `(hi - d) * lo / ((hi - lo) * d)`.
/// Where all closeness values are equal, the normalised value is one.
pub open spec fn closeness_part(d: int, lo: int, hi: int) -> (int, int) {
    if hi == lo {
        (CLOSENESS_WEIGHT as int, 1)
    } else {
        (CLOSENESS_WEIGHT * (hi - d) * lo, (hi - lo) * d)
    }
}

/// The ranking key of a score: the weighted normalised closeness plus the
/// weighted similarity, truncated once to an integer.
pub open spec fn rank_key(s: Score, lo: int, hi: int) -> int {
    let (x, y) = closeness_part(s.regex.den as int, lo, hi);
    let u = SIMILARITY_WEIGHT * s.similarity.num;
    let v = s.similarity.den as int;
    (x * v + u * y) / (y * v)
}

/// Of two fractions ordered by cross-multiplication, the floors keep the
/// order.
proof fn lemma_floor_ordered(n1: int, m1: int, n2: int, m2: int)
    requires
        0 < m1,
        0 < m2,
        0 <= n1,
        n1 * m2 <= n2 * m1,
    ensures
        n1 / m1 <= n2 / m2,
{
    vstd::arithmetic::div_mod::lemma_fundamental_div_mod(n1, m1);
    vstd::arithmetic::div_mod::lemma_fundamental_div_mod(n2, m2);
    vstd::arithmetic::div_mod::lemma_mod_bound(n1, m1);
    vstd::arithmetic::div_mod::lemma_mod_bound(n2, m2);
    let q1 = n1 / m1;
    let q2 = n2 / m2;
    if q1 > q2 {
        assert(n1 * m2 > n2 * m1) by (nonlinear_arith)
            requires
                n1 == m1 * q1 + n1 % m1,
                n2 == m2 * q2 + n2 % m2,
                0 <= n1 % m1,
                n2 % m2 < m2,
                q1 >= q2 + 1,
                0 < m1,
                0 < m2,
        ;
    }
}

/// A score whose closeness and similarity are each at most those of
/// another has a ranking key at most the other's.
pub proof fn lemma_rank_key_monotone(s1: Score, s2: Score, lo: int, hi: int)
    requires
        s1.is_valid(),
        s2.is_valid(),
        0 < lo <= s2.regex.den <= s1.regex.den <= hi,
        s1.similarity.num * s2.similarity.den <= s2.similarity.num * s1.similarity.den,
    ensures
        rank_key(s1, lo, hi) <= rank_key(s2, lo, hi),
{
    let d1 = s1.regex.den as int;
    let d2 = s2.regex.den as int;
    let (x1, y1) = closeness_part(d1, lo, hi);
    let (x2, y2) = closeness_part(d2, lo, hi);
    let u1 = SIMILARITY_WEIGHT * s1.similarity.num;
    let u2 = SIMILARITY_WEIGHT * s2.similarity.num;
    let v1 = s1.similarity.den as int;
    let v2 = s2.similarity.den as int;
    if hi == lo {
        assert(x1 == x2 && y1 == 1 && y2 == 1);
    } else {
        assert((hi - d1) * d2 <= (hi - d2) * d1) by (nonlinear_arith)
            requires
                d2 <= d1,
                0 < hi,
        ;
        assert(x1 * y2 <= x2 * y1) by (nonlinear_arith)
            requires
                x1 == CLOSENESS_WEIGHT * (hi - d1) * lo,
                x2 == CLOSENESS_WEIGHT * (hi - d2) * lo,
                y1 == (hi - lo) * d1,
                y2 == (hi - lo) * d2,
                (hi - d1) * d2 <= (hi - d2) * d1,
                0 < lo < hi,
        ;
        assert(0 < y1 && 0 < y2 && 0 <= x1) by (nonlinear_arith)
            requires
                x1 == CLOSENESS_WEIGHT * (hi - d1) * lo,
                y1 == (hi - lo) * d1,
                y2 == (hi - lo) * d2,
                0 < lo < hi,
                0 < d2 <= d1 <= hi,
        ;
    }
    assert(u1 * v2 <= u2 * v1) by (nonlinear_arith)
        requires
            u1 == SIMILARITY_WEIGHT * s1.similarity.num,
            u2 == SIMILARITY_WEIGHT * s2.similarity.num,
            s1.similarity.num * v2 <= s2.similarity.num * v1,
    ;
    let n1 = x1 * v1 + u1 * y1;
    let m1 = y1 * v1;
    let n2 = x2 * v2 + u2 * y2;
    let m2 = y2 * v2;
    assert(0 < m1 && 0 < m2 && 0 <= n1) by (nonlinear_arith)
        requires
            m1 == y1 * v1,
            m2 == y2 * v2,
            n1 == x1 * v1 + u1 * y1,
            0 < y1,
            0 < y2,
            0 < v1,
            0 < v2,
            0 <= x1,
            0 <= u1,
    ;
    assert(n1 * m2 <= n2 * m1) by (nonlinear_arith)
        requires
            n1 == x1 * v1 + u1 * y1,
            m1 == y1 * v1,
            n2 == x2 * v2 + u2 * y2,
            m2 == y2 * v2,
            x1 * y2 <= x2 * y1,
            u1 * v2 <= u2 * v1,
            0 < y1,
            0 < y2,
            0 < v1,
            0 < v2,
    ;
    lemma_floor_ordered(n1, m1, n2, m2);
}

/// The value of a 256-bit number held as a high and a low 128-bit half.
pub open spec fn wide(w: (u128, u128)) -> int {
    w.0 * 0x1_0000_0000_0000_0000_0000_0000_0000_0000 + w.1
}

/// The full product `a * b` as a high and a low 128-bit half.
fn mul_wide(a: u128, b: u128) -> (r: (u128, u128))
    requires
        b < 0x1_0000_0000_0000_0000_0000_0000,
    ensures
        wide(r) == a * b,
{
    let base: u128 = 0x1_0000_0000_0000_0000;
    let a0 = a % base;
    let a1 = a / base;
    let b0 = b % base;
    let b1 = b / base;
    proof {
        assert(a1 < 0x1_0000_0000_0000_0000);
        assert(b1 < 0x1_0000_0000);
        assert(a1 * b1 < 0x1_0000_0000_0000_0000_0000_0000) by (nonlinear_arith)
            requires
                a1 < 0x1_0000_0000_0000_0000,
                b1 < 0x1_0000_0000,
        ;
        assert(a0 * b0 < base * base) by (nonlinear_arith)
            requires
                a0 < base,
                b0 < base,
        ;
        assert(a0 * b1 < 0x1_0000_0000_0000_0000_0000_0000) by (nonlinear_arith)
            requires
                a0 < 0x1_0000_0000_0000_0000,
                b1 < 0x1_0000_0000,
        ;
        assert(a1 * b0 < base * base) by (nonlinear_arith)
            requires
                a1 < base,
                b0 < base,
        ;
    }
    let p00 = a0 * b0;
    let p01 = a0 * b1;
    let p10 = a1 * b0;
    let p11 = a1 * b1;
    let mid = p00 / base + p01 % base + p10 % base;
    let hi = p11 + p01 / base + p10 / base + mid / base;
    let lo = (mid % base) * base + p00 % base;
    proof {
        assert(a == a1 * 0x1_0000_0000_0000_0000 + a0);
        assert(b == b1 * 0x1_0000_0000_0000_0000 + b0);
        assert(a * b == p11 * 0x1_0000_0000_0000_0000_0000_0000_0000_0000 + (p01 + p10)
            * 0x1_0000_0000_0000_0000 + p00) by (nonlinear_arith)
            requires
                a == a1 * 0x1_0000_0000_0000_0000 + a0,
                b == b1 * 0x1_0000_0000_0000_0000 + b0,
                p00 == a0 * b0,
                p01 == a0 * b1,
                p10 == a1 * b0,
                p11 == a1 * b1,
        ;
        assert(p00 == (p00 / base) * 0x1_0000_0000_0000_0000 + p00 % base);
        assert(p01 == (p01 / base) * 0x1_0000_0000_0000_0000 + p01 % base);
        assert(p10 == (p10 / base) * 0x1_0000_0000_0000_0000 + p10 % base);
        assert(mid == (mid / base) * 0x1_0000_0000_0000_0000 + mid % base);
    }
    (hi, lo)
}

/// The product `x * (y * z)` as a 256-bit number.
fn triple(x: u128, y: u128, z: u128) -> (r: (u128, u128))
    requires
        x < 0x1_0000_0000_0000_0000_0000_0000,
        y < 0x100_0000_0000_0000_0000,
        z < 0x100_0000_0000_0000_0000,
    ensures
        wide(r) == x * (y * z),
{
    let (ph, pl) = mul_wide(y, z);
    let (qh, ql) = mul_wide(pl, x);
    proof {
        assert(y * z < 0x1_0000_0000_0000_0000_0000_0000_0000_0000_0000) by (nonlinear_arith)
            requires
                y < 0x100_0000_0000_0000_0000,
                z < 0x100_0000_0000_0000_0000,
        ;
        assert(ph < 0x1_0000);
        assert(pl * x < 0x1_0000_0000_0000_0000_0000_0000_0000_0000 * 0x1_0000_0000_0000_0000_0000_0000) by (nonlinear_arith)
            requires
                pl < 0x1_0000_0000_0000_0000_0000_0000_0000_0000,
                x < 0x1_0000_0000_0000_0000_0000_0000,
        ;
        assert(qh < 0x1_0000_0000_0000_0000_0000_0000);
        assert(ph * x < 0x1_0000 * 0x1_0000_0000_0000_0000_0000_0000) by (nonlinear_arith)
            requires
                ph < 0x1_0000,
                x < 0x1_0000_0000_0000_0000_0000_0000,
        ;
        assert(x * (y * z) == (ph * x + qh) * 0x1_0000_0000_0000_0000_0000_0000_0000_0000 + ql) by (nonlinear_arith)
            requires
                y * z == ph * 0x1_0000_0000_0000_0000_0000_0000_0000_0000 + pl,
                pl * x == qh * 0x1_0000_0000_0000_0000_0000_0000_0000_0000 + ql,
        ;
    }
    (ph * x + qh, ql)
}

/// The sum of two 256-bit numbers.
fn add_wide(a: (u128, u128), b: (u128, u128)) -> (r: (u128, u128))
    requires
        wide(a) + wide(b) < 0x1_0000_0000_0000_0000_0000_0000_0000_0000 * 0x1_0000_0000_0000_0000_0000_0000_0000_0000,
    ensures
        wide(r) == wide(a) + wide(b),
{
    if a.1 > u128::MAX - b.1 {
        (a.0 + b.0 + 1, a.1 - (u128::MAX - b.1) - 1)
    } else {
        (a.0 + b.0, a.1 + b.1)
    }
}

/// Whether one 256-bit number is at least another.
fn wide_at_least(a: (u128, u128), b: (u128, u128)) -> (r: bool)
    ensures
        r == (wide(a) >= wide(b)),
{
    a.0 > b.0 || (a.0 == b.0 && a.1 >= b.1)
}

impl Score {
    /// A closeness of the form `100 / den`, and a similarity between zero
    /// and one.
    pub open spec fn is_valid(&self) -> bool {
        &&& self.regex.num == 100
        &&& 0 < self.regex.den <= MAX_DEN
        &&& self.similarity.num <= self.similarity.den
        &&& 0 < self.similarity.den <= 2 * (usize::MAX as int)
    }

    /// The score of a match at byte offsets `start..end` in a line of
    /// `line_len` bytes.
    pub fn of_match(start: usize, end: usize, line_len: usize, similarity: Ratio) -> (r: Score)
        requires
            start <= end <= line_len,
        ensures
            r.regex == closeness(end - start, line_len as int),
            r.similarity == similarity,
    {
        let width = (end - start) as u128;
        Score {
            regex: Ratio { num: 100, den: 100 * (width + 1) + line_len as u128 + 1 },
            similarity,
        }
    }

    /// The ranking key of this score, where the closeness denominators of
    /// the scores being ranked run from `lo` to `hi`.
    pub fn value(&self, lo: u128, hi: u128) -> (r: u32)
        requires
            self.is_valid(),
            0 < lo <= self.regex.den <= hi <= MAX_DEN,
        ensures
            r == rank_key(*self, lo as int, hi as int),
            r <= MAX_KEY,
    {
        let d = self.regex.den;
        let s = self.similarity;
        let (a1, a2, b1, b2): (u128, u128, u128, u128) = if hi == lo {
            (1, 1, 1, 1)
        } else {
            (hi - d, lo, hi - lo, d)
        };
        let v: u128 = s.den;
        let u: u128 = SIMILARITY_WEIGHT * s.num;
        let cv: u128 = CLOSENESS_WEIGHT * v;
        let ghost x: int = CLOSENESS_WEIGHT * (a1 * a2);
        let ghost y: int = b1 * b2;
        let ghost n: int = x * v + u * y;
        let ghost m: int = y * v;
        proof {
            assert(a1 * a2 <= b1 * b2) by (nonlinear_arith)
                requires
                    hi == lo ==> a1 == 1 && a2 == 1 && b1 == 1 && b2 == 1,
                    hi != lo ==> a1 == hi - d && a2 == lo && b1 == hi - lo && b2 == d,
                    0 < lo <= d <= hi,
            ;
            assert(0 < y) by (nonlinear_arith)
                requires
                    y == b1 * b2,
                    hi == lo ==> b1 == 1 && b2 == 1,
                    hi != lo ==> b1 == hi - lo && b2 == d,
                    0 < lo <= d <= hi,
            ;
            assert(0 < m) by (nonlinear_arith)
                requires
                    m == y * v,
                    0 < y,
                    0 < v,
            ;
            assert(closeness_part(d as int, lo as int, hi as int) == (x, y)) by (nonlinear_arith)
                requires
                    x == CLOSENESS_WEIGHT * (a1 * a2),
                    y == b1 * b2,
                    hi == lo ==> a1 == 1 && a2 == 1 && b1 == 1 && b2 == 1,
                    hi != lo ==> a1 == hi - d && a2 == lo && b1 == hi - lo && b2 == d,
            ;
            assert(n <= MAX_KEY * m) by (nonlinear_arith)
                requires
                    n == x * v + u * y,
                    m == y * v,
                    x == CLOSENESS_WEIGHT * (a1 * a2),
                    a1 * a2 <= y,
                    u == SIMILARITY_WEIGHT * s.num,
                    s.num <= v,
                    0 < y,
                    0 < v,
            ;
            assert(0 <= n) by (nonlinear_arith)
                requires
                    n == x * v + u * y,
                    x == CLOSENESS_WEIGHT * (a1 * a2),
                    0 <= u,
                    0 < y,
                    0 < v,
            ;
            assert(m < 0x1_0000_0000_0000_0000_0000_0000_0000_0000 * 0x1_0000_0000_0000_0000_0000_0000)
                by (nonlinear_arith)
                requires
                    m == (b1 * b2) * v,
                    b1 < 0x100_0000_0000_0000_0000,
                    b2 < 0x100_0000_0000_0000_0000,
                    v < 0x4_0000_0000_0000_0000,
            ;
            assert(cv * (a1 * a2) + u * (b1 * b2) == n) by (nonlinear_arith)
                requires
                    cv == CLOSENESS_WEIGHT * v,
                    n == x * v + u * y,
                    x == CLOSENESS_WEIGHT * (a1 * a2),
                    y == b1 * b2,
            ;
        }
        let rhs = add_wide(triple(cv, a1, a2), triple(u, b1, b2));
        let mut low: u128 = 0;
        let mut high: u128 = MAX_KEY as u128 + 1;
        while high - low > 1
            invariant
                low < high <= MAX_KEY + 1,
                low * m <= n,
                high * m > n,
                wide(rhs) == n,
                m == (b1 * b2) * v,
                0 < m,
                v < 0x4_0000_0000_0000_0000,
                b1 < 0x100_0000_0000_0000_0000,
                b2 < 0x100_0000_0000_0000_0000,
            decreases high - low,
        {
            let mid = low + (high - low) / 2;
            proof {
                assert(mid * v < 0x1_0000_0000_0000_0000_0000_0000) by (nonlinear_arith)
                    requires
                        mid <= MAX_KEY + 1,
                        v < 0x4_0000_0000_0000_0000,
                ;
            }
            let lhs = triple(mid * v, b1, b2);
            proof {
                assert(mid * v * (b1 * b2) == mid * m) by (nonlinear_arith)
                    requires
                        m == (b1 * b2) * v,
                ;
            }
            if wide_at_least(rhs, lhs) {
                low = mid;
            } else {
                high = mid;
            }
        }
        proof {
            assert(high == low + 1);
            assert(n < low * m + m) by (nonlinear_arith)
                requires
                    high * m > n,
                    high == low + 1,
            ;
            vstd::arithmetic::div_mod::lemma_fundamental_div_mod_converse(n, m, low as int, n - low * m);
        }
        low as u32
    }
}

/// The similarity part of a line's score: its bigram similarity to the
/// anchor, or zero without an anchor.
pub open spec fn anchor_similarity(line: Seq<char>, anchor: Option<Seq<u64>>) -> Ratio {
    match anchor {
        Some(a) => dice(sorted_bigrams(line), a),
        None => zero_ratio(),
    }
}

/// The length in bytes of the UTF-8 encoding of `s`, as `str::len` gives it.
pub open spec fn byte_len(s: Seq<char>) -> int {
    (encode_utf8(s).len() as usize) as int
}

/// `s` is a score that a match in `line` can have: the closeness of a
/// match of some width within the line, and the line's anchor similarity.
pub open spec fn is_match_score(s: Score, line: Seq<char>, anchor: Option<Seq<u64>>) -> bool {
    &&& s.is_valid()
    &&& exists|w: int| 0 <= w <= byte_len(line) && s.regex == #[trigger] closeness(w, byte_len(line))
    &&& s.similarity == anchor_similarity(line, anchor)
}

/// The span at which the fuzzy pattern of `term` first matches `line`:
/// none where the term has more characters than the line, or has no
/// pattern.
pub open spec fn match_span(term: Seq<char>, line: Seq<char>) -> Option<(usize, usize)> {
    if term.len() > line.len() || !has_fuzzy_pattern(term) {
        None
    } else {
        first_match(fuzzy_source(term), !has_upper(term), line)
    }
}

/// The score of `line` for `term` and the anchor's bigrams, or none where
/// it does not match.
pub open spec fn line_score(term: Seq<char>, anchor: Option<Seq<u64>>, line: Seq<char>) -> Option<
    Score,
> {
    match match_span(term, line) {
        None => None,
        Some((start, end)) => Some(
            Score {
                regex: closeness(end - start, byte_len(line)),
                similarity: anchor_similarity(line, anchor),
            },
        ),
    }
}

/// Scores lines against a query term, optionally weighted by similarity to
/// an anchor text. The anchor's scratch set makes scoring take `&mut self`.
pub struct Scorer<'a> {
    re: Option<Pattern>,
    term: &'a str,
    term_chars: usize,
    anchor: Option<Anchor>,
}

impl<'a> Scorer<'a> {
    /// The query term.
    pub closed spec fn term(&self) -> &'a str {
        self.term
    }

    /// The anchor's sorted bigrams, if there is an anchor.
    pub closed spec fn anchor_view(&self) -> Option<Seq<u64>> {
        match self.anchor {
            Some(a) => Some(a@),
            None => None,
        }
    }

    /// The source and case flag of the compiled pattern, if there is one.
    pub closed spec fn compiled(&self) -> Option<(Seq<char>, bool)> {
        match self.re {
            Some(p) => Some((p.source(), p.insensitive())),
            None => None,
        }
    }

    /// The pattern is the term's fuzzy pattern, present exactly where that
    /// compiles, and the anchor's bigrams are sorted.
    pub closed spec fn wf(&self) -> bool {
        &&& self.term_chars == self.term@.len()
        &&& (self.re is Some <==> has_fuzzy_pattern(self.term@))
        &&& (self.re matches Some(p) ==> p.source() == fuzzy_source(self.term@) && p.insensitive()
            == !has_upper(self.term@))
        &&& (self.anchor matches Some(a) ==> a.wf())
    }

    pub fn new(term: &'a str, anchor: Option<Anchor>) -> (r: Self)
        requires
            anchor matches Some(a) ==> a.wf(),
        ensures
            r.wf(),
            r.term() == term,
            r.anchor_view() == (match anchor {
                Some(a) => Some(a@),
                None => None::<Seq<u64>>,
            }),
            r.compiled() == (if has_fuzzy_pattern(term@) {
                Some((fuzzy_source(term@), !has_upper(term@)))
            } else {
                None
            }),
    {
        let term_chars = chars_of(term).len();
        Scorer { re: pattern(term), term, term_chars, anchor }
    }

    /// The score of `line`, or none where it does not match: where the term
    /// is empty or has more characters than the line, or where its pattern
    /// did not compile or does not match.
    pub fn score(&mut self, line: &str) -> (r: Option<Score>)
        requires
            old(self).wf(),
        ensures
            final(self).wf(),
            final(self).term() == old(self).term(),
            final(self).anchor_view() == old(self).anchor_view(),
            final(self).compiled() == old(self).compiled(),
            r == line_score(old(self).term()@, old(self).anchor_view(), line@),
            r matches Some(s) ==> is_match_score(s, line@, old(self).anchor_view()),
    {
        let line_chars = chars_of(line).len();
        if self.term_chars > line_chars {
            return None;
        }
        let span = match &self.re {
            None => None,
            Some(p) => find(p, line),
        };
        match span {
            None => None,
            Some((start, end)) => {
                let similarity = match &mut self.anchor {
                    None => Ratio { num: 0, den: 1 },
                    Some(a) => a.score(line),
                };
                let s = Score::of_match(start, end, line.len(), similarity);
                assert(line.len() as int == byte_len(line@));
                assert(s.regex == closeness(end - start, byte_len(line@)));
                Some(s)
            },
        }
    }
}

/// The entries are in non-increasing order of ranking key, where the
/// closeness denominators run from `lo` to `hi`.
pub open spec fn is_ranked(r: Seq<(String, Score)>, lo: int, hi: int) -> bool {
    forall|a: int, b: int|
        0 <= a < b < r.len() ==> #[trigger] rank_key(r[a].1, lo, hi) >= #[trigger] rank_key(
            r[b].1,
            lo,
            hi,
        )
}

/// `lo` and `hi` are the least and the greatest closeness denominator of
/// the scores in `r`.
pub open spec fn den_bounds(r: Seq<(String, Score)>, lo: int, hi: int) -> bool {
    &&& forall|k: int| 0 <= k < r.len() ==> lo <= #[trigger] r[k].1.regex.den <= hi
    &&& exists|k: int| 0 <= k < r.len() && #[trigger] r[k].1.regex.den == lo
    &&& exists|k: int| 0 <= k < r.len() && #[trigger] r[k].1.regex.den == hi
}

/// `a` holds the same line and score as `b`.
pub open spec fn same_entry(a: (String, Score), b: (String, Score)) -> bool {
    a.0@ == b.0@ && a.1 == b.1
}


/// `p` lists each of `0..n` exactly once.
pub open spec fn is_index_perm(p: Seq<int>, n: int) -> bool {
    &&& p.len() == n
    &&& forall|k: int| 0 <= k < p.len() ==> 0 <= #[trigger] p[k] < n
    &&& forall|a: int, b: int| 0 <= a < b < p.len() ==> #[trigger] p[a] != #[trigger] p[b]
    &&& forall|i: int| 0 <= i < n ==> #[trigger] p.contains(i)
}

/// The text and score of an entry.
pub open spec fn entry_view(e: (String, Score)) -> (Seq<char>, Score) {
    (e.0@, e.1)
}

/// The texts and scores of entries.
pub open spec fn entries_view(s: Seq<(String, Score)>) -> Seq<(Seq<char>, Score)> {
    s.map_values(|e: (String, Score)| entry_view(e))
}

/// `r` holds the entries of `m` in the order `p` gives; entries of equal
/// ranking key keep the order they have in `m`.
pub open spec fn arranged(
    r: Seq<(String, Score)>,
    m: Seq<(Seq<char>, Score)>,
    p: Seq<int>,
    lo: int,
    hi: int,
) -> bool {
    &&& r.len() == m.len()
    &&& is_index_perm(p, m.len() as int)
    &&& forall|k: int| 0 <= k < r.len() ==> entry_view(#[trigger] r[k]) == m[p[k]]
    &&& forall|a: int, b: int|
        0 <= a < b < r.len() && #[trigger] rank_key(r[a].1, lo, hi) == #[trigger] rank_key(
            r[b].1,
            lo,
            hi,
        ) ==> p[a] < p[b]
}

/// Order of sort entries: by key, then by position.
pub open spec fn entry_leq() -> spec_fn((u32, usize), (u32, usize)) -> bool {
    |a: (u32, usize), b: (u32, usize)| a.0 < b.0 || (a.0 == b.0 && a.1 <= b.1)
}

/// Relies on `<[(u32, usize)]>::sort_unstable`: the pairs end up in
/// ascending lexicographic order, which for a total order is unique.
#[verifier::external_body]
fn sort_entries(v: &mut Vec<(u32, usize)>)
    ensures
        final(v)@ == old(v)@.sort_by(entry_leq()),
{
    v.sort_unstable();
}

/// `entries` in non-increasing order of ranking key; entries with equal
/// keys keep their relative order.
#[verifier::rlimit(60)]
pub fn sort_matches(entries: &Vec<(String, Score)>, lo: u128, hi: u128) -> (r: Vec<(String, Score)>)
    requires
        0 < lo <= hi <= MAX_DEN,
        forall|k: int|
            0 <= k < entries@.len() ==> (#[trigger] entries@[k]).1.is_valid() && lo
                <= entries@[k].1.regex.den <= hi,
    ensures
        is_ranked(r@, lo as int, hi as int),
        exists|p: Seq<int>|
            #[trigger] arranged(
                r@,
                entries_view(entries@),
                p,
                lo as int,
                hi as int,
            ),
{
    let n = entries.len();
    let mut keys: Vec<(u32, usize)> = Vec::new();
    for i in 0..n
        invariant
            n == entries@.len(),
            0 < lo <= hi <= MAX_DEN,
            forall|k: int|
                0 <= k < entries@.len() ==> (#[trigger] entries@[k]).1.is_valid() && lo
                    <= entries@[k].1.regex.den <= hi,
            keys@.len() == i,
            forall|k: int|
                0 <= k < i ==> 0 <= #[trigger] rank_key(entries@[k].1, lo as int, hi as int)
                    <= MAX_KEY,
            forall|k: int|
                0 <= k < i ==> #[trigger] keys@[k] == ((MAX_KEY - rank_key(
                    entries@[k].1,
                    lo as int,
                    hi as int,
                )) as u32, k as usize),
    {
        let key = entries[i].1.value(lo, hi);
        keys.push((MAX_KEY - key, i));
    }
    let ghost before = keys@;
    sort_entries(&mut keys);
    proof {
        let leq = entry_leq();
        assert(total_ordering(leq));
        before.lemma_sort_by_ensures(leq);
        before.to_multiset_ensures();
        keys@.to_multiset_ensures();
        assert forall|m: int| 0 <= m < keys@.len() implies (#[trigger] keys@[m]).1 < n && keys@[m].0
            == MAX_KEY - rank_key(entries@[keys@[m].1 as int].1, lo as int, hi as int) by {
            let x = keys@[m];
            assert(keys@.contains(x));
            assert(before.contains(x));
            let j = choose|j: int| 0 <= j < before.len() && before[j] == x;
            assert(0 <= rank_key(entries@[j].1, lo as int, hi as int) <= MAX_KEY);
        }
        assert forall|i: int| 0 <= i < n implies keys@.contains(#[trigger] before[i]) by {
            assert(before.contains(before[i]));
            assert(before.to_multiset().count(before[i]) > 0);
            assert(keys@.to_multiset().count(before[i]) > 0);
        }
        assert(before.no_duplicates());
        before.lemma_multiset_has_no_duplicates();
        keys@.lemma_multiset_has_no_duplicates_conv();
    }
    let mut out: Vec<(String, Score)> = Vec::new();
    for m in 0..n
        invariant
            n == entries@.len(),
            n == keys@.len(),
            forall|q: int|
                0 <= q < keys@.len() ==> (#[trigger] keys@[q]).1 < n && keys@[q].0 == MAX_KEY
                    - rank_key(entries@[keys@[q].1 as int].1, lo as int, hi as int),
            out@.len() == m,
            forall|q: int|
                0 <= q < m ==> same_entry(#[trigger] out@[q], entries@[keys@[q].1 as int]),
            before.len() == n,
            forall|i: int| 0 <= i < n ==> keys@.contains(#[trigger] before[i]),
            forall|i: int| 0 <= i < n ==> (#[trigger] before[i]).1 == i,
            keys@.no_duplicates(),
    {
        let idx = keys[m].1;
        let entry = &entries[idx];
        out.push((entry.0.clone(), entry.1));
    }
    proof {
        assert(sorted_by(keys@, entry_leq()));
        assert forall|a: int, b: int| 0 <= a < b < out@.len() implies #[trigger] rank_key(
            out@[a].1,
            lo as int,
            hi as int,
        ) >= #[trigger] rank_key(out@[b].1, lo as int, hi as int) by {
            assert(entry_leq()(keys@[a], keys@[b]));
        }
        let m = entries_view(entries@);
        let p = keys@.map_values(|q: (u32, usize)| q.1 as int);
        assert forall|a: int, b: int|
            0 <= a < b < out@.len() && #[trigger] rank_key(out@[a].1, lo as int, hi as int)
                == #[trigger] rank_key(out@[b].1, lo as int, hi as int) implies p[a] < p[b] by {
            assert(entry_leq()(keys@[a], keys@[b]));
            assert(keys@[a] != keys@[b]);
        }
        assert forall|a: int, b: int| 0 <= a < b < p.len() implies #[trigger] p[a] != #[trigger] p[b] by {
            assert(keys@[a] != keys@[b]);
        }
        assert forall|i: int| 0 <= i < n implies #[trigger] p.contains(i) by {
            assert(keys@.contains(before[i]));
            let q = choose|q: int| 0 <= q < keys@.len() && keys@[q] == before[i];
            assert(p[q] == i);
        }
        assert forall|k: int| 0 <= k < out@.len() implies entry_view(#[trigger] out@[k]) == m[p[k]] by {
            assert(same_entry(out@[k], entries@[keys@[k].1 as int]));
        }
        assert(arranged(out@, m, p, lo as int, hi as int));
    }
    out
}

/// The matching lines among `lines`, in input order, each with its score.
pub open spec fn matches_of(term: Seq<char>, anchor: Option<Seq<u64>>, lines: Seq<String>) -> Seq<
    (Seq<char>, Score),
>
    decreases lines.len(),
{
    if lines.len() == 0 {
        Seq::empty()
    } else {
        let prev = matches_of(term, anchor, lines.drop_last());
        match line_score(term, anchor, lines.last()@) {
            Some(s) => prev.push((lines.last()@, s)),
            None => prev,
        }
    }
}

/// Ranking keeps no line that does not match on its own, and returns no
/// more entries than there are lines: each entry of `matches_of` holds a
/// line whose own score is that entry's score.
pub proof fn lemma_matches_of(term: Seq<char>, anchor: Option<Seq<u64>>, lines: Seq<String>)
    ensures
        matches_of(term, anchor, lines).len() <= lines.len(),
        forall|k: int|
            0 <= k < matches_of(term, anchor, lines).len() ==> exists|j: int|
                0 <= j < lines.len() && (#[trigger] matches_of(term, anchor, lines)[k]).0
                    == lines[j]@ && line_score(term, anchor, lines[j]@) == Some(
                    matches_of(term, anchor, lines)[k].1,
                ),
    decreases lines.len(),
{
    if lines.len() > 0 {
        let init = lines.drop_last();
        lemma_matches_of(term, anchor, init);
        let m = matches_of(term, anchor, lines);
        let prev = matches_of(term, anchor, init);
        assert forall|k: int| 0 <= k < m.len() implies exists|j: int|
            0 <= j < lines.len() && (#[trigger] m[k]).0 == lines[j]@ && line_score(
                term,
                anchor,
                lines[j]@,
            ) == Some(m[k].1) by {
            if k < prev.len() {
                assert(m[k] == prev[k]);
                let j = choose|j: int|
                    0 <= j < init.len() && (#[trigger] prev[k]).0 == init[j]@ && line_score(
                        term,
                        anchor,
                        init[j]@,
                    ) == Some(prev[k].1);
                assert(lines[j] == init[j]);
            } else {
                assert(lines[lines.len() - 1] == lines.last());
            }
        }
    }
}

impl<'a> Scorer<'a> {
    /// The lines that match, each with its score, in non-increasing order
    /// of ranking key; lines with equal keys keep their input order.
    pub fn rank(&mut self, lines: Vec<String>) -> (r: Vec<(String, Score)>)
        requires
            old(self).wf(),
        ensures
            final(self).wf(),
            final(self).term() == old(self).term(),
            final(self).anchor_view() == old(self).anchor_view(),
            final(self).compiled() == old(self).compiled(),
            r@.len() == matches_of(old(self).term()@, old(self).anchor_view(), lines@).len(),
            r@.len() <= lines@.len(),
            r@.len() > 0 ==> exists|lo: int, hi: int, p: Seq<int>|
                den_bounds(r@, lo, hi) && is_ranked(r@, lo, hi) && #[trigger] arranged(
                    r@,
                    matches_of(old(self).term()@, old(self).anchor_view(), lines@),
                    p,
                    lo,
                    hi,
                ),
    {
        let ghost anchor = self.anchor_view();
        let ghost term = self.term()@;
        let mut found: Vec<(String, Score)> = Vec::new();
        let mut lo: u128 = 0;
        let mut hi: u128 = 0;
        let n = lines.len();
        for i in 0..n
            invariant
                n == lines@.len(),
                self.wf(),
                self.term() == old(self).term(),
                term == old(self).term()@,
                self.anchor_view() == anchor,
                anchor == old(self).anchor_view(),
                self.compiled() == old(self).compiled(),
                entries_view(found@) == matches_of(
                    term,
                    anchor,
                    lines@.subrange(0, i as int),
                ),
                forall|k: int|
                    0 <= k < found@.len() ==> (#[trigger] found@[k]).1.is_valid()
                        && found@[k].1.regex.den <= MAX_DEN,
                found@.len() > 0 ==> 0 < lo && hi <= MAX_DEN && den_bounds(found@, lo as int, hi as int),
        {
            let line = lines[i].as_str();
            let ghost prev = found@;
            let ghost plo = lo;
            let ghost phi = hi;
            let ghost pre = lines@.subrange(0, i as int);
            let ghost post = lines@.subrange(0, i + 1);
            proof {
                assert(post.drop_last() =~= pre);
                assert(post.last() == lines@[i as int]);
            }
            match self.score(line) {
                None => {
                    assert(entries_view(found@) =~= matches_of(term, anchor, post));
                },
                Some(s) => {
                    let d = s.regex.den;
                    if found.len() == 0 {
                        lo = d;
                        hi = d;
                    } else {
                        if d < lo {
                            lo = d;
                        }
                        if d > hi {
                            hi = d;
                        }
                    }
                    found.push((lines[i].clone(), s));
                    proof {
                        let last = found@.len() - 1;
                        assert(entries_view(found@) =~= matches_of(term, anchor, post));
                        assert forall|k: int| 0 <= k < found@.len() implies (#[trigger] found@[k]).1.is_valid()
                            && found@[k].1.regex.den <= MAX_DEN by {
                            if k < last {
                                assert(found@[k] == prev[k]);
                            }
                        }
                        assert(found@[last].1.regex.den == d);
                        if prev.len() > 0 {
                            let klo = choose|k: int| 0 <= k < prev.len() && #[trigger] prev[k].1.regex.den == plo;
                            let khi = choose|k: int| 0 <= k < prev.len() && #[trigger] prev[k].1.regex.den == phi;
                            assert(found@[klo] == prev[klo]);
                            assert(found@[khi] == prev[khi]);
                            if lo == plo {
                                assert(found@[klo].1.regex.den == lo);
                            } else {
                                assert(found@[last].1.regex.den == lo);
                            }
                            if hi == phi {
                                assert(found@[khi].1.regex.den == hi);
                            } else {
                                assert(found@[last].1.regex.den == hi);
                            }
                        } else {
                            assert(found@[last].1.regex.den == lo);
                        }
                        assert forall|k: int| 0 <= k < found@.len() implies lo <= #[trigger] found@[k].1.regex.den <= hi by {
                            if k < last {
                                assert(found@[k] == prev[k]);
                            }
                        }
                    }
                },
            }
        }
        proof {
            assert(lines@.subrange(0, n as int) =~= lines@);
            lemma_matches_of(term, anchor, lines@);
        }
        if found.len() == 0 {
            return found;
        }
        let r = sort_matches(&found, lo, hi);
        proof {
            let m = entries_view(found@);
            let p = choose|p: Seq<int>| arranged(r@, m, p, lo as int, hi as int);
            let klo = choose|k: int| 0 <= k < found@.len() && #[trigger] found@[k].1.regex.den == lo;
            let khi = choose|k: int| 0 <= k < found@.len() && #[trigger] found@[k].1.regex.den == hi;
            assert(p.contains(klo));
            assert(p.contains(khi));
            let a = choose|a: int| 0 <= a < p.len() && p[a] == klo;
            let b = choose|b: int| 0 <= b < p.len() && p[b] == khi;
            assert(entry_view(r@[a]) == m[klo]);
            assert(entry_view(r@[b]) == m[khi]);
            assert forall|k: int| 0 <= k < r@.len() implies lo <= #[trigger] r@[k].1.regex.den <= hi by {
                assert(entry_view(r@[k]) == m[p[k]]);
            }
            assert(den_bounds(r@, lo as int, hi as int));
        }
        r
    }
}

} // verus!
