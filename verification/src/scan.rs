//! The mathematical model of compilation: a single left-to-right scan
//! over the Unicode scalar values of the source text, driven by an escape
//! flag and a pending literal run.

use vstd::prelude::*;

use crate::elements::{
    valid_elem, wf_elems, SpecElement, ESCAPE_CHAR, WILDCARD_MANY_CHAR, WILDCARD_SINGLE_CHAR,
};

verus! {

/// The full state of the compiling scan: the elements emitted so far, the
/// pending literal run, and whether the character just consumed was an
/// unescaped escape character.
pub struct ScanState {
    pub elems: Seq<SpecElement>,
    pub pending: Seq<char>,
    pub escape: bool,
}

/// The state before any character has been consumed.
pub open spec fn initial_state() -> ScanState {
    ScanState { elems: Seq::empty(), pending: Seq::empty(), escape: false }
}

/// Emit the pending literal run, when non-empty, as a `Substring` element.
pub open spec fn flush_elems(st: ScanState) -> Seq<SpecElement> {
    if st.pending.len() > 0 {
        st.elems.push(SpecElement::Substring(st.pending))
    } else {
        st.elems
    }
}

/// Fold one wildcard token into the element sequence: merge it into a
/// trailing wildcard group when one is open, else start a new group.
pub open spec fn push_wildcard_elems(elems: Seq<SpecElement>, is_many: bool) -> Seq<SpecElement> {
    if elems.len() > 0 && elems.last() is Wildcard {
        let merged = SpecElement::Wildcard {
            minimum: if is_many {
                elems.last()->minimum
            } else {
                elems.last()->minimum + 1
            },
            is_many: elems.last()->is_many || is_many,
        };
        elems.update(elems.len() - 1, merged)
    } else {
        let fresh = SpecElement::Wildcard {
            minimum: if is_many {
                0
            } else {
                1
            },
            is_many: is_many,
        };
        elems.push(fresh)
    }
}

/// One step of the scan, consuming a single source character.
pub open spec fn scan_step(st: ScanState, c: char) -> ScanState {
    if !st.escape && c == ESCAPE_CHAR {
        ScanState { elems: flush_elems(st), pending: Seq::empty(), escape: true }
    } else if !st.escape && c == WILDCARD_SINGLE_CHAR {
        ScanState {
            elems: push_wildcard_elems(flush_elems(st), false),
            pending: Seq::empty(),
            escape: false,
        }
    } else if !st.escape && c == WILDCARD_MANY_CHAR {
        ScanState {
            elems: push_wildcard_elems(flush_elems(st), true),
            pending: Seq::empty(),
            escape: false,
        }
    } else {
        ScanState { elems: st.elems, pending: st.pending.push(c), escape: false }
    }
}

/// The scan over a whole character sequence.
pub open spec fn scan(st: ScanState, rest: Seq<char>) -> ScanState
    decreases rest.len(),
{
    if rest.len() == 0 {
        st
    } else {
        scan(scan_step(st, rest[0]), rest.drop_first())
    }
}

/// The compiled element sequence of a source text: scan every character,
/// then flush whatever literal run is still pending.
pub open spec fn spec_compile(source: Seq<char>) -> Seq<SpecElement> {
    flush_elems(scan(initial_state(), source))
}

/// Scanning a concatenation is scanning the two halves in turn.
pub proof fn lemma_scan_app(st: ScanState, a: Seq<char>, b: Seq<char>)
    ensures
        scan(st, a + b) == scan(scan(st, a), b),
    decreases a.len(),
{
    if a.len() == 0 {
        assert(a + b =~= b);
    } else {
        assert((a + b)[0] == a[0]);
        assert((a + b).drop_first() =~= a.drop_first() + b);
        lemma_scan_app(scan_step(st, a[0]), a.drop_first(), b);
    }
}

/// Scanning one more character applies one more step.
pub proof fn lemma_scan_snoc(st: ScanState, a: Seq<char>, c: char)
    ensures
        scan(st, a.push(c)) == scan_step(scan(st, a), c),
{
    assert(a.push(c) =~= a + seq![c]);
    lemma_scan_app(st, a, seq![c]);
    let st1 = scan(st, a);
    assert(seq![c][0] == c);
    assert(scan(st1, seq![c]) == scan(scan_step(st1, c), seq![c].drop_first()));
    assert(seq![c].drop_first().len() == 0);
    assert(scan(scan_step(st1, c), seq![c].drop_first()) == scan_step(st1, c));
}

/// Flushing preserves the element invariant.
proof fn lemma_flush_wf(st: ScanState)
    requires
        wf_elems(st.elems),
    ensures
        wf_elems(flush_elems(st)),
{
    if st.pending.len() > 0 {
        let flushed = st.elems.push(SpecElement::Substring(st.pending));
        assert forall|i: int| 0 <= i < flushed.len() implies valid_elem(#[trigger] flushed[i]) by {
            if i < st.elems.len() {
                assert(flushed[i] == st.elems[i]);
            }
        }
        assert forall|i: int| 0 <= i && i + 1 < flushed.len() implies !((#[trigger] flushed[i])
            is Wildcard && flushed[i + 1] is Wildcard) by {
            if i + 1 < st.elems.len() {
                assert(flushed[i] == st.elems[i]);
                assert(flushed[i + 1] == st.elems[i + 1]);
            }
        }
    }
}

/// Folding a wildcard token in preserves the element invariant.
proof fn lemma_push_wildcard_wf(elems: Seq<SpecElement>, is_many: bool)
    requires
        wf_elems(elems),
    ensures
        wf_elems(push_wildcard_elems(elems, is_many)),
{
    let out = push_wildcard_elems(elems, is_many);
    if elems.len() > 0 && elems.last() is Wildcard {
        assert forall|i: int| 0 <= i < out.len() implies valid_elem(#[trigger] out[i]) by {
            if i < elems.len() - 1 {
                assert(out[i] == elems[i]);
            } else {
                assert(valid_elem(elems[i]));
            }
        }
        assert forall|i: int| 0 <= i && i + 1 < out.len() implies !((#[trigger] out[i]) is Wildcard
            && out[i + 1] is Wildcard) by {
            if i + 1 < elems.len() - 1 {
                assert(out[i] == elems[i]);
                assert(out[i + 1] == elems[i + 1]);
            } else {
                assert(out[i] == elems[i]);
                assert(!(elems[i] is Wildcard && elems[i + 1] is Wildcard));
            }
        }
    } else {
        assert forall|i: int| 0 <= i < out.len() implies valid_elem(#[trigger] out[i]) by {
            if i < elems.len() {
                assert(out[i] == elems[i]);
            }
        }
        assert forall|i: int| 0 <= i && i + 1 < out.len() implies !((#[trigger] out[i]) is Wildcard
            && out[i + 1] is Wildcard) by {
            if i + 1 < elems.len() {
                assert(out[i] == elems[i]);
                assert(out[i + 1] == elems[i + 1]);
            } else {
                assert(out[i] == elems[i]);
            }
        }
    }
}

/// One scan step preserves the element invariant.
proof fn lemma_scan_step_wf(st: ScanState, c: char)
    requires
        wf_elems(st.elems),
    ensures
        wf_elems(scan_step(st, c).elems),
{
    if !st.escape && (c == ESCAPE_CHAR || c == WILDCARD_SINGLE_CHAR || c == WILDCARD_MANY_CHAR) {
        lemma_flush_wf(st);
        if c != ESCAPE_CHAR {
            lemma_push_wildcard_wf(flush_elems(st), c == WILDCARD_MANY_CHAR);
        }
    }
}

/// The whole scan preserves the element invariant.
proof fn lemma_scan_wf(st: ScanState, rest: Seq<char>)
    requires
        wf_elems(st.elems),
    ensures
        wf_elems(scan(st, rest).elems),
    decreases rest.len(),
{
    if rest.len() > 0 {
        lemma_scan_step_wf(st, rest[0]);
        lemma_scan_wf(scan_step(st, rest[0]), rest.drop_first());
    }
}

/// Every compiled element sequence satisfies the element invariant.
pub proof fn lemma_compile_wf(source: Seq<char>)
    ensures
        wf_elems(spec_compile(source)),
{
    lemma_scan_wf(initial_state(), source);
    lemma_flush_wf(scan(initial_state(), source));
}

/// Every wildcard group's `minimum` is bounded by `b`.
pub open spec fn minimums_bounded(elems: Seq<SpecElement>, b: nat) -> bool {
    forall|i: int|
        0 <= i < elems.len() ==> ((#[trigger] elems[i]) is Wildcard ==> elems[i]->minimum <= b)
}

/// A bound on the wildcard minimums can be weakened.
pub proof fn lemma_minimums_weaken(elems: Seq<SpecElement>, b1: nat, b2: nat)
    requires
        minimums_bounded(elems, b1),
        b1 <= b2,
    ensures
        minimums_bounded(elems, b2),
{
}

/// One scan step raises the bound on wildcard minimums by at most one.
pub proof fn lemma_scan_step_minimums(st: ScanState, c: char, b: nat)
    requires
        minimums_bounded(st.elems, b),
    ensures
        minimums_bounded(scan_step(st, c).elems, b + 1),
{
    let out = scan_step(st, c).elems;
    assert forall|i: int|
        0 <= i < out.len() && (#[trigger] out[i]) is Wildcard implies out[i]->minimum <= b + 1 by {
        if i < st.elems.len() {
            assert(st.elems[i] is Wildcard ==> st.elems[i]->minimum <= b);
        }
    }
}

} // verus!
