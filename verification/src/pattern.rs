//! The compiled pattern: an immutable element sequence with the matching,
//! rendering and equality operations over it.

use vstd::prelude::*;

use crate::compiler::Compiler;
use crate::elements::{elems_view, wf_elems, PatternElement, SpecElement};
use crate::matching::{match_elements, spec_matches};
use crate::render::{render_elements, spec_render};
use crate::scan::spec_compile;
use crate::text::{chars_eq, chars_of, string_from_chars};

verus! {

/// A wildcard pattern to be matched against strings.
///
/// A pattern is compiled once from a source string and is immutable
/// thereafter; it may be reused across many `matches` calls.
pub struct Pattern {
    elements: Vec<PatternElement>,
}

impl View for Pattern {
    type V = Seq<SpecElement>;

    closed spec fn view(&self) -> Seq<SpecElement> {
        elems_view(self.elements)
    }
}

impl Pattern {
    /// Every pattern satisfies the compiler's element invariant.
    #[verifier::type_invariant]
    spec fn inv(self) -> bool {
        wf_elems(elems_view(self.elements))
    }

    /// Wrap an element list that satisfies the element invariant.
    pub(crate) fn from_elements(elements: Vec<PatternElement>) -> (p: Pattern)
        requires
            wf_elems(elems_view(elements)),
        ensures
            p@ == elems_view(elements),
    {
        Pattern { elements }
    }

    /// Compile a new pattern from a source string. Infallible: every
    /// source string, including the empty one, yields a valid pattern.
    pub fn new(source: &str) -> (p: Pattern)
        ensures
            p@ == spec_compile(source@),
    {
        Compiler::from_source(source).compile()
    }

    /// Test whether or not this pattern matches a given string.
    pub fn matches(&self, string: &str) -> (r: bool)
        ensures
            r == spec_matches(self@, string@),
    {
        proof {
            use_type_invariant(self);
        }
        let s = chars_of(string);
        match_elements(&self.elements, &s)
    }

    /// The canonical pattern text of this pattern: literal runs with the
    /// special characters escaped, one many-wildcard character per
    /// unbounded group, one single-wildcard character per mandatory
    /// character of a bounded group.
    pub fn render(&self) -> (r: String)
        ensures
            r@ == spec_render(self@),
    {
        let out = render_elements(&self.elements);
        string_from_chars(&out)
    }

    /// Structural equality of compiled patterns: two patterns are equal
    /// exactly when optimization produced identical element sequences, so
    /// different source strings that compile to the same elements compare
    /// equal (`"**"` and `"*"`, or `"??*"` and `"?*?"`).
    pub fn equals(&self, other: &Pattern) -> (r: bool)
        ensures
            r == (self@ == other@),
    {
        let n: usize = self.elements.len();
        if other.elements.len() != n {
            proof {
                assert(self@.len() != other@.len());
            }
            return false;
        }
        let mut i: usize = 0;
        while i < n
            invariant
                n == self.elements@.len(),
                n == other.elements@.len(),
                i <= n,
                forall|j: int| 0 <= j < i ==> self@[j] == other@[j],
            decreases n - i,
        {
            let ghost a = self@[i as int];
            let ghost b = other@[i as int];
            proof {
                assert(a == self.elements@[i as int]@);
                assert(b == other.elements@[i as int]@);
            }
            let same = match (&self.elements[i], &other.elements[i]) {
                (PatternElement::Substring(u), PatternElement::Substring(v)) => chars_eq(u, v),
                (PatternElement::Wildcard(w1), PatternElement::Wildcard(w2)) => w1.minimum
                    == w2.minimum && w1.is_many == w2.is_many,
                _ => false,
            };
            if !same {
                proof {
                    assert(a != b);
                    if self@ == other@ {
                        assert(self@[i as int] == other@[i as int]);
                    }
                }
                return false;
            }
            i += 1;
        }
        proof {
            assert(self@ =~= other@);
        }
        true
    }
}

} // verus!
