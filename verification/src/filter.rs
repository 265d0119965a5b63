use vstd::prelude::*;
use vstd::string::StringExecFns;
use crate::{Entry, ScanError};
use crate::regexp::{regex_pattern_ok, regex_matches, regex_valid, regex_is_match};
use crate::text::{ascii_lower, lower_seq, str_eq};

verus! {

/// A pure predicate over entries: the scanner keeps what the filter
/// keeps and drops the rest.
pub trait Filter: Sized {
    /// What the filter keeps.
    spec fn keep_spec(&self, entry: Entry) -> bool;

    /// Decides whether the entry is kept.
    fn keep(&self, entry: &Entry) -> (r: bool)
        ensures
            r == self.keep_spec(*entry),
    ;

    /// The opposite decision.
    fn discard(&self, entry: &Entry) -> (r: bool)
        ensures
            r == !self.keep_spec(*entry),
    {
        !self.keep(entry)
    }
}

/// Combinators that build filter expressions out of filters.
pub trait Binary where Self: Sized {
    /// Keeps what both keep.
    fn and<B>(self, other: B) -> (r: And<Self, B>)
        ensures
            r == And(self, other),
    ;

    /// Keeps what either keeps.
    fn or<B>(self, other: B) -> (r: Or<Self, B>)
        ensures
            r == Or(self, other),
    ;

    /// Keeps what this filter discards.
    fn not(self) -> (r: Not<Self>)
        ensures
            r == Not(self),
    ;
}

impl<F: Filter> Binary for F {
    fn and<B>(self, other: B) -> (r: And<Self, B>) {
        And(self, other)
    }

    fn or<B>(self, other: B) -> (r: Or<Self, B>) {
        Or(self, other)
    }

    fn not(self) -> (r: Not<Self>) {
        Not(self)
    }
}

/// The identity filter: keeps everything.
impl Filter for () {
    open spec fn keep_spec(&self, entry: Entry) -> bool {
        true
    }

    fn keep(&self, entry: &Entry) -> (r: bool) {
        true
    }
}

/// Keeps entries whose extension is one of a fixed set; insensitive to
/// ASCII case unless told otherwise.
#[derive(Debug, Clone, PartialEq)]
pub struct Extensions {
    extensions: Vec<String>,
    case_sensitive: bool,
}

impl Extensions {
    pub closed spec fn spec_exts(&self) -> Seq<String> {
        self.extensions@
    }

    pub closed spec fn spec_case_sensitive(&self) -> bool {
        self.case_sensitive
    }

    /// A case-insensitive filter on the given extensions.
    pub fn new(extensions: Vec<String>) -> (r: Self)
        ensures
            r.spec_exts() == extensions@,
            !r.spec_case_sensitive(),
    {
        Extensions { extensions, case_sensitive: false }
    }

    /// The same filter with case sensitivity switched.
    pub fn case_sensitive(self, sensitive: bool) -> (r: Self)
        ensures
            r.spec_exts() == self.spec_exts(),
            r.spec_case_sensitive() == sensitive,
    {
        Extensions { extensions: self.extensions, case_sensitive: sensitive }
    }
}

/// Whether one of the patterns names the extension: as written when
/// the filter is case-sensitive, and folded to lower case otherwise,
/// to meet the extension, which the entry already carries lower-cased.
pub open spec fn ext_listed(exts: Seq<String>, case_sensitive: bool, e: Seq<char>) -> bool {
    exists|i: int|
        0 <= i < exts.len() && (if case_sensitive {
            exts[i]@
        } else {
            lower_seq(exts[i]@)
        }) == e
}

impl Filter for Extensions {
    open spec fn keep_spec(&self, entry: Entry) -> bool {
        match entry.spec_extension() {
            Some(e) => ext_listed(self.spec_exts(), self.spec_case_sensitive(), e),
            None => false,
        }
    }

    fn keep(&self, entry: &Entry) -> (r: bool) {
        match entry.extension() {
            None => false,
            Some(ext) => {
                let mut i: usize = 0;
                while i < self.extensions.len()
                    invariant
                        i <= self.extensions.len(),
                        entry.spec_extension() matches Some(ee) && ext@ == ee,
                        forall|k: int|
                            0 <= k < i ==> (if self.spec_case_sensitive() {
                                self.spec_exts()[k]@
                            } else {
                                lower_seq(self.spec_exts()[k]@)
                            }) != ext@,
                    decreases self.extensions.len() - i,
                {
                    let hit = if self.case_sensitive {
                        str_eq(self.extensions[i].as_str(), ext.as_str())
                    } else {
                        let low = ascii_lower(self.extensions[i].as_str());
                        str_eq(low.as_str(), ext.as_str())
                    };
                    if hit {
                        proof {
                            assert(ext_listed(
                                self.spec_exts(),
                                self.spec_case_sensitive(),
                                ext@,
                            ));
                        }
                        return true;
                    }
                    i += 1;
                }
                proof {
                    if ext_listed(self.spec_exts(), self.spec_case_sensitive(), ext@) {
                        let k = choose|k: int|
                            0 <= k < self.spec_exts().len() && (if self.spec_case_sensitive() {
                                self.spec_exts()[k]@
                            } else {
                                lower_seq(self.spec_exts()[k]@)
                            }) == ext@;
                        assert((if self.spec_case_sensitive() {
                            self.spec_exts()[k]@
                        } else {
                            lower_seq(self.spec_exts()[k]@)
                        }) != ext@);
                    }
                }
                false
            },
        }
    }
}

/// Keeps only dotfiles: entries whose name begins with a dot.
#[derive(Default, Debug, Clone, Copy, PartialEq, Eq)]
pub struct Dot;

impl Filter for Dot {
    open spec fn keep_spec(&self, entry: Entry) -> bool {
        entry.spec_is_dot()
    }

    fn keep(&self, entry: &Entry) -> (r: bool) {
        entry.is_dot()
    }
}

/// Keeps entries whose name matches a regular expression.
#[derive(Debug)]
pub struct Match {
    pattern: String,
}

impl Clone for Match {
    fn clone(&self) -> (r: Self)
        ensures
            r == *self,
    {
        proof {
            use_type_invariant(self);
        }
        Match { pattern: self.pattern.clone() }
    }
}

impl Match {
    #[verifier::type_invariant]
    spec fn wf(self) -> bool {
        regex_pattern_ok(self.pattern@)
    }

    pub closed spec fn spec_pattern(&self) -> Seq<char> {
        self.pattern@
    }

    /// A filter on the given pattern; a pattern the regex engine refuses
    /// is reported back as `ScanError::InvalidPattern`.
    pub fn new(pattern: &str) -> (r: Result<Self, ScanError>)
        ensures
            r is Ok <==> regex_pattern_ok(pattern@),
            r matches Ok(m) ==> m.spec_pattern() == pattern@,
            r matches Err(k) ==> k is InvalidPattern,
    {
        match regex_valid(pattern) {
            Ok(()) => Ok(Match { pattern: String::from_str(pattern) }),
            Err(e) => Err(ScanError::InvalidPattern(e)),
        }
    }
}

impl Filter for Match {
    open spec fn keep_spec(&self, entry: Entry) -> bool {
        regex_matches(self.spec_pattern(), entry.spec_name())
    }

    fn keep(&self, entry: &Entry) -> (r: bool) {
        proof {
            use_type_invariant(self);
        }
        regex_is_match(self.pattern.as_str(), entry.file_name())
    }
}

/// Keeps what both of two filters keep.
#[derive(Debug, Clone, PartialEq)]
pub struct And<A, B>(pub A, pub B);

impl<A, B> And<A, B> {
    pub fn new(a: A, b: B) -> (r: Self)
        ensures
            r == And(a, b),
    {
        And(a, b)
    }

    pub fn a(&self) -> (r: &A)
        ensures
            *r == self.0,
    {
        &self.0
    }

    pub fn b(&self) -> (r: &B)
        ensures
            *r == self.1,
    {
        &self.1
    }
}

impl<A: Filter, B: Filter> Filter for And<A, B> {
    open spec fn keep_spec(&self, entry: Entry) -> bool {
        self.0.keep_spec(entry) && self.1.keep_spec(entry)
    }

    fn keep(&self, entry: &Entry) -> (r: bool) {
        self.0.keep(entry) && self.1.keep(entry)
    }
}

/// Keeps what either of two filters keeps.
#[derive(Debug, Clone, PartialEq)]
pub struct Or<A, B>(pub A, pub B);

impl<A, B> Or<A, B> {
    pub fn new(a: A, b: B) -> (r: Self)
        ensures
            r == Or(a, b),
    {
        Or(a, b)
    }

    pub fn a(&self) -> (r: &A)
        ensures
            *r == self.0,
    {
        &self.0
    }

    pub fn b(&self) -> (r: &B)
        ensures
            *r == self.1,
    {
        &self.1
    }
}

impl<A: Filter, B: Filter> Filter for Or<A, B> {
    open spec fn keep_spec(&self, entry: Entry) -> bool {
        self.0.keep_spec(entry) || self.1.keep_spec(entry)
    }

    fn keep(&self, entry: &Entry) -> (r: bool) {
        self.0.keep(entry) || self.1.keep(entry)
    }
}

/// Keeps what a filter discards.
#[derive(Debug, Clone, PartialEq)]
pub struct Not<F>(pub F);

impl<F> Not<F> {
    pub fn new(filter: F) -> (r: Self)
        ensures
            r == Not(filter),
    {
        Not(filter)
    }

    pub fn filter(&self) -> (r: &F)
        ensures
            *r == self.0,
    {
        &self.0
    }
}

impl<F: Filter> Filter for Not<F> {
    open spec fn keep_spec(&self, entry: Entry) -> bool {
        !self.0.keep_spec(entry)
    }

    fn keep(&self, entry: &Entry) -> (r: bool) {
        self.0.discard(entry)
    }
}

impl<F: Filter + Default> Default for Not<F> {
    /// The negation of the inner filter's default.
    fn default() -> (r: Self) {
        Not(F::default())
    }
}

// ---------------------------------------------------------------------------
// The filter algebra's laws
// ---------------------------------------------------------------------------

/// Conjunction with the identity filter changes nothing: `and(a, identity)`
/// keeps exactly what `a` keeps.
pub proof fn lemma_and_identity<A: Filter>(a: A, entry: Entry)
    ensures
        And(a, ()).keep_spec(entry) == a.keep_spec(entry),
{
}

/// A filter or its own negation: `or(a, not(a))` keeps every entry.
pub proof fn lemma_or_complement<A: Filter>(a: A, entry: Entry)
    ensures
        Or(a, Not(a)).keep_spec(entry),
{
}

/// Double negation changes nothing: `not(not(a))` keeps exactly what `a`
/// keeps.
pub proof fn lemma_not_involution<A: Filter>(a: A, entry: Entry)
    ensures
        Not(Not(a)).keep_spec(entry) == a.keep_spec(entry),
{
}

/// Conjunction is commutative.
pub proof fn lemma_and_commutes<A: Filter, B: Filter>(a: A, b: B, entry: Entry)
    ensures
        And(a, b).keep_spec(entry) == And(b, a).keep_spec(entry),
{
}

/// Disjunction is commutative.
pub proof fn lemma_or_commutes<A: Filter, B: Filter>(a: A, b: B, entry: Entry)
    ensures
        Or(a, b).keep_spec(entry) == Or(b, a).keep_spec(entry),
{
}

/// De Morgan's laws: negation swaps conjunction and disjunction.
pub proof fn lemma_de_morgan<A: Filter, B: Filter>(a: A, b: B, entry: Entry)
    ensures
        Not(And(a, b)).keep_spec(entry) == Or(Not(a), Not(b)).keep_spec(entry),
        Not(Or(a, b)).keep_spec(entry) == And(Not(a), Not(b)).keep_spec(entry),
{
}

} // verus!
