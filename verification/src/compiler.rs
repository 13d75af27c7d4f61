//! The pattern compiler: one left-to-right scan over the source
//! characters builds the optimized element sequence.
//!
//! The scan keeps the longest possible literal runs together and packs
//! consecutive wildcard tokens into single wildcard groups, so the
//! element invariants hold by construction.

use vstd::prelude::*;

use crate::elements::{
    elems_view, PatternElement, SpecElement, Wildcard, ESCAPE_CHAR, WILDCARD_MANY_CHAR,
    WILDCARD_SINGLE_CHAR,
};
use crate::pattern::Pattern;
use crate::scan::{
    flush_elems, initial_state, lemma_compile_wf, lemma_minimums_weaken, lemma_scan_snoc,
    lemma_scan_step_minimums, minimums_bounded, push_wildcard_elems, scan, scan_step, spec_compile,
    ScanState,
};
use crate::text::{chars_of, chars_range};

verus! {

/// A one-shot pattern compiler. Make one with `from_source`, then call
/// `compile`.
pub struct Compiler {
    source: Vec<char>,
    elements: Vec<PatternElement>,
    slice_start: usize,
    slice_end: usize,
    escape: bool,
}

impl Compiler {
    /// The source characters this compiler was made from.
    pub closed spec fn source_view(self) -> Seq<char> {
        self.source@
    }

    /// A compiler fresh from `from_source`: nothing consumed yet.
    pub closed spec fn fresh(self) -> bool {
        &&& self.elements@.len() == 0
        &&& self.slice_start == 0
        &&& self.slice_end == 0
        &&& !self.escape
    }

    /// The scan state this compiler stands in: emitted elements, pending
    /// literal run, escape flag.
    spec fn state(self) -> ScanState {
        ScanState {
            elems: elems_view(self.elements),
            pending: self.source@.subrange(self.slice_start as int, self.slice_end as int),
            escape: self.escape,
        }
    }

    spec fn bounds_ok(self) -> bool {
        self.slice_start <= self.slice_end <= self.source@.len()
    }

    /// Begin compiling the given source string.
    pub fn from_source(source: &str) -> (c: Compiler)
        ensures
            c.fresh(),
            c.source_view() == source@,
    {
        Compiler {
            source: chars_of(source),
            elements: Vec::new(),
            slice_start: 0,
            slice_end: 0,
            escape: false,
        }
    }

    /// Push the pending literal run, when non-empty, and advance past it.
    fn flush(&mut self)
        requires
            old(self).bounds_ok(),
        ensures
            final(self).bounds_ok(),
            elems_view(final(self).elements) == flush_elems(old(self).state()),
            final(self).slice_start == old(self).slice_end,
            final(self).slice_end == old(self).slice_end,
            final(self).source == old(self).source,
            final(self).escape == old(self).escape,
    {
        if self.slice_start < self.slice_end {
            let piece = chars_range(&self.source, self.slice_start, self.slice_end);
            self.elements.push(PatternElement::Substring(piece));
            proof {
                assert(elems_view(self.elements) =~= elems_view(old(self).elements).push(
                    SpecElement::Substring(old(self).state().pending),
                ));
            }
        }
        self.slice_start = self.slice_end;
    }

    /// Reset the literal span to just after the current character.
    fn reset_after(&mut self)
        requires
            old(self).slice_end < old(self).source@.len(),
        ensures
            final(self).slice_start == old(self).slice_end + 1,
            final(self).slice_end == old(self).slice_end + 1,
            final(self).source == old(self).source,
            final(self).elements == old(self).elements,
            final(self).escape == old(self).escape,
    {
        let n: usize = self.source.len();
        proof {
            assert(self.slice_end < n);
        }
        self.slice_start = self.slice_end + 1;
        self.slice_end = self.slice_start;
    }

    /// Fold a wildcard token into the element sequence, merging it with
    /// the trailing wildcard group when one exists.
    fn push_wildcard(&mut self, is_many: bool)
        requires
            minimums_bounded(elems_view(old(self).elements), (usize::MAX - 1) as nat),
        ensures
            elems_view(final(self).elements) == push_wildcard_elems(
                elems_view(old(self).elements),
                is_many,
            ),
            final(self).source == old(self).source,
            final(self).slice_start == old(self).slice_start,
            final(self).slice_end == old(self).slice_end,
            final(self).escape == old(self).escape,
    {
        let ghost old_view = elems_view(old(self).elements);
        match self.elements.pop() {
            Some(last) => match last {
                PatternElement::Wildcard(w) => {
                    proof {
                        assert(old_view.last() == SpecElement::Wildcard {
                            minimum: w.minimum as nat,
                            is_many: w.is_many,
                        });
                        assert(old_view.last()->minimum <= usize::MAX - 1);
                    }
                    let merged = if is_many {
                        w.push_many()
                    } else {
                        w.push_single()
                    };
                    self.elements.push(PatternElement::Wildcard(merged));
                    proof {
                        assert(elems_view(self.elements) =~= push_wildcard_elems(
                            old_view,
                            is_many,
                        ));
                    }
                },
                PatternElement::Substring(text) => {
                    self.elements.push(PatternElement::Substring(text));
                    let fresh = if is_many {
                        Wildcard::many()
                    } else {
                        Wildcard::single()
                    };
                    self.elements.push(PatternElement::Wildcard(fresh));
                    proof {
                        assert(elems_view(self.elements) =~= push_wildcard_elems(
                            old_view,
                            is_many,
                        ));
                    }
                },
            },
            None => {
                let fresh = if is_many {
                    Wildcard::many()
                } else {
                    Wildcard::single()
                };
                self.elements.push(PatternElement::Wildcard(fresh));
                proof {
                    assert(elems_view(self.elements) =~= push_wildcard_elems(old_view, is_many));
                }
            },
        }
    }

    /// Parse and optimize the source in a single scan, producing the
    /// compiled pattern. Infallible: every source string, including the
    /// empty one and one ending in a trailing escape character, yields a
    /// valid pattern.
    pub fn compile(self) -> (p: Pattern)
        requires
            self.fresh(),
        ensures
            p@ == spec_compile(self.source_view()),
    {
        let ghost src = self.source@;
        let mut this = self;
        let n: usize = this.source.len();
        let mut idx: usize = 0;
        proof {
            assert(src.take(0) =~= Seq::<char>::empty());
            assert(this.state().pending =~= Seq::<char>::empty());
            assert(this.state().elems =~= Seq::<SpecElement>::empty());
            assert(this.state() == scan(initial_state(), src.take(0)));
        }
        while idx < n
            invariant
                n == this.source@.len(),
                this.source@ == src,
                this.bounds_ok(),
                this.slice_end == idx,
                idx <= n,
                this.state() == scan(initial_state(), src.take(idx as int)),
                minimums_bounded(elems_view(this.elements), idx as nat),
            decreases n - idx,
        {
            let c = this.source[idx];
            let ghost pre = this.state();
            proof {
                assert(src.take(idx as int).push(src[idx as int]) =~= src.take(idx + 1));
                lemma_scan_snoc(initial_state(), src.take(idx as int), src[idx as int]);
                assert(scan(initial_state(), src.take(idx + 1)) == scan_step(pre, c));
                lemma_scan_step_minimums(pre, c, idx as nat);
            }
            if c == ESCAPE_CHAR && !this.escape {
                proof {
                    lemma_minimums_weaken(pre.elems, idx as nat, (usize::MAX - 1) as nat);
                }
                this.flush();
                this.reset_after();
                this.escape = true;
                proof {
                    assert(this.state().pending =~= Seq::<char>::empty());
                    assert(this.state() == scan_step(pre, c));
                }
            } else if c == WILDCARD_SINGLE_CHAR && !this.escape {
                proof {
                    lemma_minimums_weaken(pre.elems, idx as nat, (usize::MAX - 1) as nat);
                    assert(minimums_bounded(flush_elems(pre), (usize::MAX - 1) as nat));
                }
                this.flush();
                this.reset_after();
                this.push_wildcard(false);
                proof {
                    assert(this.state().pending =~= Seq::<char>::empty());
                    assert(this.state() == scan_step(pre, c));
                }
            } else if c == WILDCARD_MANY_CHAR && !this.escape {
                proof {
                    lemma_minimums_weaken(pre.elems, idx as nat, (usize::MAX - 1) as nat);
                    assert(minimums_bounded(flush_elems(pre), (usize::MAX - 1) as nat));
                }
                this.flush();
                this.reset_after();
                this.push_wildcard(true);
                proof {
                    assert(this.state().pending =~= Seq::<char>::empty());
                    assert(this.state() == scan_step(pre, c));
                }
            } else {
                this.slice_end = this.slice_end + 1;
                this.escape = false;
                proof {
                    assert(this.state().pending =~= pre.pending.push(c));
                    assert(this.state() == scan_step(pre, c));
                }
            }
            idx += 1;
        }
        proof {
            assert(src.take(n as int) =~= src);
        }
        this.flush();
        proof {
            lemma_compile_wf(src);
            assert(elems_view(this.elements) == spec_compile(src));
        }
        Pattern::from_elements(this.elements)
    }
}

} // verus!
