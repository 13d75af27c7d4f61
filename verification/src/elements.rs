//! The element model: the canonical intermediate representation that a
//! compiled pattern is made of, together with its invariants.

use vstd::prelude::*;

verus! {

/// The escape character, `\`.
pub const ESCAPE_CHAR: char = '\\';

/// The *single* wildcard character, `?`.
pub const WILDCARD_SINGLE_CHAR: char = '?';

/// The *many* wildcard character, `*`.
pub const WILDCARD_MANY_CHAR: char = '*';

/// A wildcard group: a merged run of consecutive wildcard tokens.
///
/// `minimum` counts the mandatory single-character wildcards folded into
/// the group (in Unicode scalar values); `is_many` records whether at
/// least one unbounded wildcard was folded into it.
#[derive(Clone, Copy)]
pub struct Wildcard {
    pub minimum: usize,
    pub is_many: bool,
}

impl Wildcard {
    /// A fresh group holding exactly one single-character wildcard.
    pub fn single() -> (w: Wildcard)
        ensures
            w.minimum == 1,
            !w.is_many,
    {
        Wildcard { minimum: 1, is_many: false }
    }

    /// A fresh group holding exactly one unbounded wildcard.
    pub fn many() -> (w: Wildcard)
        ensures
            w.minimum == 0,
            w.is_many,
    {
        Wildcard { minimum: 0, is_many: true }
    }

    /// Fold one more single-character wildcard into the group.
    pub fn push_single(self) -> (w: Wildcard)
        requires
            self.minimum < usize::MAX,
        ensures
            w.minimum == self.minimum + 1,
            w.is_many == self.is_many,
    {
        Wildcard { minimum: self.minimum + 1, is_many: self.is_many }
    }

    /// Fold one more unbounded wildcard into the group.
    pub fn push_many(self) -> (w: Wildcard)
        ensures
            w.minimum == self.minimum,
            w.is_many,
    {
        Wildcard { minimum: self.minimum, is_many: true }
    }
}

/// One unit of a compiled pattern: a literal run of characters, matched
/// exactly, or a wildcard group.
pub enum PatternElement {
    Substring(Vec<char>),
    Wildcard(Wildcard),
}

/// The mathematical model of one pattern element.
pub enum SpecElement {
    Substring(Seq<char>),
    Wildcard { minimum: nat, is_many: bool },
}

impl View for PatternElement {
    type V = SpecElement;

    open spec fn view(&self) -> SpecElement {
        match self {
            PatternElement::Substring(v) => SpecElement::Substring(v@),
            PatternElement::Wildcard(w) => SpecElement::Wildcard {
                minimum: w.minimum as nat,
                is_many: w.is_many,
            },
        }
    }
}

/// The model of a whole element list.
pub open spec fn elems_view(elements: Vec<PatternElement>) -> Seq<SpecElement> {
    elements@.map_values(|e: PatternElement| e@)
}

/// A single element is valid when it is not a no-op: literal runs are
/// non-empty, and a wildcard group demands at least one character or is
/// unbounded.
pub open spec fn valid_elem(e: SpecElement) -> bool {
    match e {
        SpecElement::Substring(v) => v.len() > 0,
        SpecElement::Wildcard { minimum, is_many } => minimum > 0 || is_many,
    }
}

/// The invariant of a compiled element sequence: every element is valid,
/// and no wildcard group is immediately followed by another (adjacent
/// wildcard tokens are always merged into one group).
pub open spec fn wf_elems(elems: Seq<SpecElement>) -> bool {
    &&& forall|i: int| 0 <= i < elems.len() ==> valid_elem(#[trigger] elems[i])
    &&& forall|i: int|
        0 <= i && i + 1 < elems.len() ==> !((#[trigger] elems[i]) is Wildcard
            && elems[i + 1] is Wildcard)
}

} // verus!
