//! The pluggable predicate that decides which addresses are of interest.
//!
//! A matcher is constructed once from the search pattern and then consulted
//! for every candidate address or display name.  Matchers carry no mutable
//! state, so one value can be cloned freely across worker threads.

use vstd::prelude::*;
use vstd::slice::{slice_index_get, slice_to_vec};
use vstd::utf8::encode_utf8;

verus! {

/// A predicate over candidate text.  `spec_matches` is the mathematical
/// meaning of one matcher value; `new_matches` says which texts a matcher
/// built from a given pattern accepts, so constructing and consulting a
/// matcher is pinned down end to end.
pub trait Matcher: Sized {
    spec fn spec_matches(&self, s: Seq<char>) -> bool;

    spec fn new_matches(pattern: Seq<char>, s: Seq<char>) -> bool;

    fn new(pattern: String) -> (r: Self)
        ensures
            forall|s: Seq<char>| #[trigger] r.spec_matches(s) == Self::new_matches(pattern@, s),
    ;

    fn matches(&self, s: &str) -> (r: bool)
        ensures
            r == self.spec_matches(s@),
    ;
}

/// `needle` occurs contiguously somewhere in `hay`.
pub open spec fn contains_seq(hay: Seq<u8>, needle: Seq<u8>) -> bool {
    exists|i: int|
        0 <= i && i + needle.len() <= hay.len() && #[trigger] hay.subrange(i, i + needle.len())
            == needle
}

/// Whether the bytes of `needle` occur contiguously in `hay`.
fn contains_bytes(hay: &[u8], needle: &[u8]) -> (r: bool)
    ensures
        r == contains_seq(hay@, needle@),
{
    let n = needle.len();
    let h = hay.len();
    if n > h {
        return false;
    }
    if n == 0 {
        proof {
            assert(hay@.subrange(0, 0 + needle@.len() as int) =~= needle@);
        }
        return true;
    }
    let mut i: usize = 0;
    while i <= h - n
        invariant
            1 <= n <= h,
            h == hay@.len(),
            n == needle@.len(),
            i <= h - n + 1,
            forall|j: int|
                0 <= j < i ==> #[trigger] hay@.subrange(j, j + needle@.len()) != needle@,
        decreases h - i,
    {
        if bytes_equal_at(hay, needle, i) {
            return true;
        }
        i = i + 1;
    }
    false
}

/// Whether `needle` occurs in `hay` starting exactly at index `at`.
fn bytes_equal_at(hay: &[u8], needle: &[u8], at: usize) -> (r: bool)
    requires
        at + needle@.len() <= hay@.len(),
    ensures
        r == (hay@.subrange(at as int, at + needle@.len()) == needle@),
{
    let n = needle.len();
    let h = hay.len();
    let mut k: usize = 0;
    while k < n
        invariant
            at + n <= h,
            h == hay@.len(),
            n == needle@.len(),
            k <= n,
            forall|t: int| 0 <= t < k ==> hay@[at + t] == needle@[t],
        decreases n - k,
    {
        if *slice_index_get(hay, at + k) != *slice_index_get(needle, k) {
            assert(hay@.subrange(at as int, at + needle@.len())[k as int] != needle@[k as int]);
            return false;
        }
        k = k + 1;
    }
    assert(hay@.subrange(at as int, at + needle@.len()) =~= needle@);
    true
}

/// Accepts text that contains the pattern verbatim.
#[derive(Clone)]
pub struct SubstringMatcher {
    pattern: Vec<u8>,
}

impl Matcher for SubstringMatcher {
    closed spec fn spec_matches(&self, s: Seq<char>) -> bool {
        contains_seq(encode_utf8(s), self.pattern@)
    }

    /// The candidate's bytes contain the pattern's bytes.
    open spec fn new_matches(pattern: Seq<char>, s: Seq<char>) -> bool {
        contains_seq(encode_utf8(s), encode_utf8(pattern))
    }

    fn new(pattern: String) -> Self {
        SubstringMatcher { pattern: slice_to_vec(pattern.as_str().as_bytes()) }
    }

    fn matches(&self, s: &str) -> (r: bool)
    {
        contains_bytes(s.as_bytes(), self.pattern.as_slice())
    }
}

/// The lowercased form of a text.
///
/// This names what `str::to_lowercase` returns; the result is determined by
/// the characters of the input alone.
pub uninterp spec fn lower_of(s: Seq<char>) -> Seq<char>;

/// Relies on `str::to_lowercase`: returns the lowercase equivalent of the
/// text, a function of the input characters alone.
#[verifier::external_body]
fn to_lowercase_string(s: &str) -> (r: String)
    ensures
        r@ == lower_of(s@),
{
    s.to_lowercase()
}

/// Accepts text whose lowercased form the inner matcher accepts; the pattern
/// is lowercased once at construction.
#[derive(Clone)]
pub struct CaseInsensitiveMatcher<M>(M);

impl<M: Matcher> Matcher for CaseInsensitiveMatcher<M> {
    closed spec fn spec_matches(&self, s: Seq<char>) -> bool {
        self.0.spec_matches(lower_of(s))
    }

    /// Both the pattern and the candidate are lowercased before the inner
    /// matcher decides.
    open spec fn new_matches(pattern: Seq<char>, s: Seq<char>) -> bool {
        M::new_matches(lower_of(pattern), lower_of(s))
    }

    fn new(pattern: String) -> Self {
        CaseInsensitiveMatcher(M::new(to_lowercase_string(pattern.as_str())))
    }

    fn matches(&self, s: &str) -> (r: bool)
    {
        let lowered = to_lowercase_string(s);
        self.0.matches(lowered.as_str())
    }
}

/// Whether the pattern fuzzy-matches the text under the skim scoring scheme.
///
/// This names the verdict of `SkimMatcherV2::fuzzy` with its default
/// configuration; the verdict depends on the two texts alone.
pub uninterp spec fn fuzzy_match_of(text: Seq<char>, pattern: Seq<char>) -> bool;

/// Relies on `fuzzy_matcher::skim::SkimMatcherV2::fuzzy` (default
/// configuration, without match positions): whether a score is produced
/// depends only on the text and the pattern.
#[verifier::external_body]
fn skim_fuzzy_matches(text: &str, pattern: &str) -> (r: bool)
    ensures
        r == fuzzy_match_of(text@, pattern@),
{
    fuzzy_matcher::skim::SkimMatcherV2::default().fuzzy(text, pattern, false).is_some()
}

/// Accepts text that the skim fuzzy scorer matches against the pattern.
#[derive(Clone)]
pub struct FuzzyMatcher {
    pattern: String,
}

impl Matcher for FuzzyMatcher {
    closed spec fn spec_matches(&self, s: Seq<char>) -> bool {
        fuzzy_match_of(s, self.pattern@)
    }

    /// The skim scorer accepts the candidate against the pattern.
    open spec fn new_matches(pattern: Seq<char>, s: Seq<char>) -> bool {
        fuzzy_match_of(s, pattern)
    }

    fn new(pattern: String) -> Self {
        FuzzyMatcher { pattern }
    }

    fn matches(&self, s: &str) -> (r: bool)
    {
        skim_fuzzy_matches(s, self.pattern.as_str())
    }
}

} // verus!
