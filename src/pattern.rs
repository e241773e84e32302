use vstd::prelude::*;

use regex::Regex;
use vstd::string::StringSliceAdditionalSpecFns;

use crate::text::chars_of;

verus! {

#[verifier::external_type_specification]
#[verifier::external_body]
pub struct ExRegex(Regex);

/// The characters that have a meaning of their own in a regular expression.
pub open spec fn is_meta(c: char) -> bool {
    c == '\\' || c == '.' || c == '+' || c == '*' || c == '?' || c == '(' || c == ')' || c
        == '|' || c == '[' || c == ']' || c == '{' || c == '}' || c == '^' || c == '$' || c
        == '#' || c == '&' || c == '-' || c == '~'
}

/// `c` as a regular expression that matches `c` itself.
pub open spec fn escaped(c: char) -> Seq<char> {
    if is_meta(c) {
        seq!['\\', c]
    } else {
        seq![c]
    }
}

/// The sub-pattern for a character of the term that is followed by `next`:
/// the character itself, then any run of characters other than `next`.
pub open spec fn gap_piece(c: char, next: char) -> Seq<char> {
    escaped(c) + seq!['[', '^'] + escaped(next) + seq![']', '*']
}

/// The sub-patterns of the first `k` characters of `t`.
pub open spec fn gaps(t: Seq<char>, k: nat) -> Seq<char>
    decreases k,
{
    if k == 0 {
        Seq::empty()
    } else {
        gaps(t, (k - 1) as nat) + gap_piece(t[k - 1], t[k as int])
    }
}

/// The fuzzy subsequence pattern of a non-empty term: a gap sub-pattern for
/// each character but the last, then the last character alone.
pub open spec fn fuzzy_source(t: Seq<char>) -> Seq<char> {
    gaps(t, (t.len() - 1) as nat) + escaped(t[t.len() - 1])
}

/// Whether Unicode classes `c` as uppercase.
pub uninterp spec fn is_upper(c: char) -> bool;

pub open spec fn has_upper(t: Seq<char>) -> bool {
    exists|i: int| 0 <= i < t.len() && is_upper(#[trigger] t[i])
}

/// Relies on `char::is_uppercase`, which depends on the character alone.
#[verifier::external_body]
fn char_is_upper(c: char) -> (r: bool)
    ensures
        r == is_upper(c),
{
    c.is_uppercase()
}

/// Relies on `regex::escape`, which puts a backslash before each meta
/// character and keeps every other character as it is.
#[verifier::external_body]
fn escape_char(c: char) -> (r: String)
    ensures
        r@ == escaped(c),
{
    regex::escape(&c.to_string())
}

/// Relies on `String`'s `FromIterator<&char>`: the characters in order.
#[verifier::external_body]
fn string_of(v: &Vec<char>) -> (r: String)
    ensures
        r@ == v@,
{
    v.iter().collect()
}

/// Whether the pattern `p` compiles with the given case sensitivity.
pub uninterp spec fn compiles(p: Seq<char>, insensitive: bool) -> bool;

/// The byte offsets of the leftmost match of the compiled pattern `p` in
/// `line`, if there is one.
pub uninterp spec fn first_match(p: Seq<char>, insensitive: bool, line: Seq<char>) -> Option<(usize, usize)>;

/// A compiled pattern together with the source and case sensitivity it was
/// compiled from.
pub struct Pattern {
    re: Regex,
    source: String,
    insensitive: bool,
}

impl Pattern {
    pub closed spec fn source(&self) -> Seq<char> {
        self.source@
    }

    pub closed spec fn insensitive(&self) -> bool {
        self.insensitive
    }
}

/// Relies on `regex::RegexBuilder`: the pattern compiled with the given
/// case sensitivity, or nothing where it does not compile; which of the two
/// depends on the pattern and the flag alone.
#[verifier::external_body]
fn compile(pattern: &str, insensitive: bool) -> (r: Option<Regex>)
    ensures
        r is Some <==> compiles(pattern@, insensitive),
{
    regex::RegexBuilder::new(pattern).case_insensitive(insensitive).build().ok()
}

/// Relies on `regex::Regex::find`: the byte offsets of the leftmost match,
/// with `start <= end` and both inside the haystack; they depend on the
/// compiled pattern and the haystack alone.
#[verifier::external_body]
pub(crate) fn find(p: &Pattern, line: &str) -> (r: Option<(usize, usize)>)
    ensures
        r == first_match(p.source(), p.insensitive(), line@),
        r matches Some((start, end)) ==> start <= end <= line.len(),
{
    p.re.find(line).map(|m| (m.start(), m.end()))
}

fn push_escaped(out: &mut Vec<char>, c: char)
    ensures
        final(out)@ == old(out)@ + escaped(c),
{
    let e = escape_char(c);
    let chars = chars_of(e.as_str());
    let mut i: usize = 0;
    while i < chars.len()
        invariant
            i <= chars@.len(),
            chars@ == escaped(c),
            out@ == old(out)@ + chars@.subrange(0, i as int),
        decreases chars@.len() - i,
    {
        out.push(chars[i]);
        assert(chars@.subrange(0, i + 1) =~= chars@.subrange(0, i as int).push(chars@[i as int]));
        i = i + 1;
    }
    assert(chars@.subrange(0, i as int) =~= chars@);
}

/// The source of the fuzzy pattern for `term`, and whether it matches
/// without regard to case: only when no character of the term is
/// uppercase. An empty term has no pattern.
pub fn pattern_source(term: &str) -> (r: Option<(String, bool)>)
    ensures
        term@.len() == 0 <==> r is None,
        r matches Some((p, insensitive)) ==> p@ == fuzzy_source(term@) && insensitive == !has_upper(term@),
{
    let t = chars_of(term);
    let n = t.len();
    if n == 0 {
        return None;
    }
    let mut out: Vec<char> = Vec::new();
    let mut upper = char_is_upper(t[n - 1]);
    let mut i: usize = 0;
    while i < n - 1
        invariant
            n == t@.len(),
            n >= 1,
            t@ == term@,
            i <= n - 1,
            out@ == gaps(t@, i as nat),
            upper == (is_upper(t@[n - 1]) || exists|k: int| 0 <= k < i && is_upper(#[trigger] t@[k])),
        decreases n - 1 - i,
    {
        let c = t[i];
        push_escaped(&mut out, c);
        out.push('[');
        out.push('^');
        push_escaped(&mut out, t[i + 1]);
        out.push(']');
        out.push('*');
        if char_is_upper(c) {
            upper = true;
        }
        proof {
            assert(out@ =~= gaps(t@, i as nat) + gap_piece(t@[i as int], t@[i + 1]));
            if upper {
                if !is_upper(t@[n - 1]) && !is_upper(c) {
                    let k = choose|k: int| 0 <= k < i && is_upper(#[trigger] t@[k]);
                    assert(0 <= k < i + 1 && is_upper(t@[k]));
                }
            }
        }
        i = i + 1;
    }
    push_escaped(&mut out, t[n - 1]);
    proof {
        if upper {
            if !is_upper(t@[n - 1]) {
                let k = choose|k: int| 0 <= k < n - 1 && is_upper(#[trigger] t@[k]);
            }
        } else {
            assert forall|k: int| 0 <= k < t@.len() implies !is_upper(#[trigger] t@[k]) by {
                if k < n - 1 {
                }
            }
        }
    }
    Some((string_of(&out), !upper))
}

/// Whether `term` has a pattern: it is not empty and its fuzzy pattern
/// compiles.
pub open spec fn has_fuzzy_pattern(term: Seq<char>) -> bool {
    term.len() > 0 && compiles(fuzzy_source(term), !has_upper(term))
}

/// The compiled fuzzy pattern of `term`; none for an empty term, or where
/// the pattern does not compile.
pub fn pattern(term: &str) -> (r: Option<Pattern>)
    ensures
        r is Some <==> has_fuzzy_pattern(term@),
        r matches Some(p) ==> p.source() == fuzzy_source(term@) && p.insensitive() == !has_upper(
            term@,
        ),
{
    match pattern_source(term) {
        None => None,
        Some((p, insensitive)) => match compile(p.as_str(), insensitive) {
            None => None,
            Some(re) => Some(Pattern { re, source: p, insensitive }),
        },
    }
}

} // verus!
