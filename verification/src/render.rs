//! The canonical serializer: regenerate pattern text from a compiled
//! element sequence, escaping the special characters inside literal runs.

use vstd::prelude::*;

use crate::elements::{
    elems_view, PatternElement, SpecElement, ESCAPE_CHAR, WILDCARD_MANY_CHAR, WILDCARD_SINGLE_CHAR,
};

verus! {

/// The canonical text of one literal character: special characters are
/// preceded by the escape character.
pub open spec fn esc_char(c: char) -> Seq<char> {
    if c == ESCAPE_CHAR || c == WILDCARD_SINGLE_CHAR || c == WILDCARD_MANY_CHAR {
        seq![ESCAPE_CHAR, c]
    } else {
        seq![c]
    }
}

/// The canonical text of a literal run.
pub open spec fn esc_text(v: Seq<char>) -> Seq<char>
    decreases v.len(),
{
    if v.len() == 0 {
        Seq::empty()
    } else {
        esc_char(v[0]) + esc_text(v.drop_first())
    }
}

/// The canonical text of one element. A wildcard group with an unbounded
/// wildcard renders as the single many-wildcard character; one without
/// renders as its mandatory single-wildcard characters.
pub open spec fn render_elem(e: SpecElement) -> Seq<char> {
    match e {
        SpecElement::Substring(v) => esc_text(v),
        SpecElement::Wildcard { minimum, is_many } => if is_many {
            seq![WILDCARD_MANY_CHAR]
        } else {
            Seq::new(minimum, |t: int| WILDCARD_SINGLE_CHAR)
        },
    }
}

/// The canonical text of a whole element sequence.
pub open spec fn spec_render(elems: Seq<SpecElement>) -> Seq<char>
    decreases elems.len(),
{
    if elems.len() == 0 {
        Seq::empty()
    } else {
        render_elem(elems[0]) + spec_render(elems.drop_first())
    }
}

/// Escaping distributes over concatenation of literal runs.
pub proof fn lemma_esc_text_app(u: Seq<char>, v: Seq<char>)
    ensures
        esc_text(u + v) == esc_text(u) + esc_text(v),
    decreases u.len(),
{
    if u.len() == 0 {
        assert(u + v =~= v);
        assert(esc_text(u) + esc_text(v) =~= esc_text(v));
    } else {
        assert((u + v)[0] == u[0]);
        assert((u + v).drop_first() =~= u.drop_first() + v);
        lemma_esc_text_app(u.drop_first(), v);
        assert((esc_char(u[0]) + esc_text(u.drop_first())) + esc_text(v) =~= esc_char(u[0]) + (
        esc_text(u.drop_first()) + esc_text(v)));
    }
}

/// Escaping one more character appends its canonical text.
proof fn lemma_esc_text_snoc(v: Seq<char>, k: int)
    requires
        0 <= k < v.len(),
    ensures
        esc_text(v.take(k + 1)) == esc_text(v.take(k)) + esc_char(v[k]),
{
    assert(v.take(k + 1) =~= v.take(k) + seq![v[k]]);
    lemma_esc_text_app(v.take(k), seq![v[k]]);
    assert(seq![v[k]][0] == v[k]);
    assert(esc_text(seq![v[k]]) == esc_char(v[k]) + esc_text(seq![v[k]].drop_first()));
    assert(seq![v[k]].drop_first() =~= Seq::<char>::empty());
    assert(esc_char(v[k]) + esc_text(Seq::<char>::empty()) =~= esc_char(v[k]));
}

/// Rendering distributes over concatenation of element sequences.
pub proof fn lemma_render_app(e1: Seq<SpecElement>, e2: Seq<SpecElement>)
    ensures
        spec_render(e1 + e2) == spec_render(e1) + spec_render(e2),
    decreases e1.len(),
{
    if e1.len() == 0 {
        assert(e1 + e2 =~= e2);
        assert(spec_render(e1) + spec_render(e2) =~= spec_render(e2));
    } else {
        assert((e1 + e2)[0] == e1[0]);
        assert((e1 + e2).drop_first() =~= e1.drop_first() + e2);
        lemma_render_app(e1.drop_first(), e2);
        assert((render_elem(e1[0]) + spec_render(e1.drop_first())) + spec_render(e2)
            =~= render_elem(e1[0]) + (spec_render(e1.drop_first()) + spec_render(e2)));
    }
}

/// A one-element sequence renders as that element.
pub proof fn lemma_render_one(e: SpecElement)
    ensures
        spec_render(seq![e]) == render_elem(e),
{
    assert(seq![e][0] == e);
    assert(spec_render(seq![e]) == render_elem(e) + spec_render(seq![e].drop_first()));
    assert(seq![e].drop_first() =~= Seq::<SpecElement>::empty());
    assert(render_elem(e) + spec_render(Seq::<SpecElement>::empty()) =~= render_elem(e));
}

/// Rendering one more element appends its canonical text.
proof fn lemma_render_snoc(elems: Seq<SpecElement>, i: int)
    requires
        0 <= i < elems.len(),
    ensures
        spec_render(elems.take(i + 1)) == spec_render(elems.take(i)) + render_elem(elems[i]),
{
    assert(elems.take(i + 1) =~= elems.take(i) + seq![elems[i]]);
    lemma_render_app(elems.take(i), seq![elems[i]]);
    lemma_render_one(elems[i]);
}

/// Produce the canonical characters of an element list.
pub fn render_elements(elements: &Vec<PatternElement>) -> (out: Vec<char>)
    ensures
        out@ == spec_render(elems_view(*elements)),
{
    let ghost full = elems_view(*elements);
    let mut out: Vec<char> = Vec::new();
    let n: usize = elements.len();
    let mut i: usize = 0;
    proof {
        assert(full.take(0) =~= Seq::<SpecElement>::empty());
    }
    while i < n
        invariant
            n == elements@.len(),
            full == elems_view(*elements),
            i <= n,
            out@ == spec_render(full.take(i as int)),
        decreases n - i,
    {
        let ghost done = out@;
        proof {
            lemma_render_snoc(full, i as int);
            assert(full[i as int] == elements@[i as int]@);
        }
        match &elements[i] {
            PatternElement::Substring(v) => {
                let m: usize = v.len();
                let mut k: usize = 0;
                proof {
                    assert(v@.take(0) =~= Seq::<char>::empty());
                }
                while k < m
                    invariant
                        m == v@.len(),
                        k <= m,
                        done == spec_render(full.take(i as int)),
                        out@ == done + esc_text(v@.take(k as int)),
                    decreases m - k,
                {
                    let c = v[k];
                    proof {
                        lemma_esc_text_snoc(v@, k as int);
                    }
                    if c == ESCAPE_CHAR || c == WILDCARD_SINGLE_CHAR || c == WILDCARD_MANY_CHAR {
                        out.push(ESCAPE_CHAR);
                        out.push(c);
                    } else {
                        out.push(c);
                    }
                    proof {
                        assert(out@ =~= done + esc_text(v@.take(k + 1)));
                    }
                    k += 1;
                }
                proof {
                    assert(v@.take(m as int) =~= v@);
                    assert(render_elem(full[i as int]) == esc_text(v@));
                }
            },
            PatternElement::Wildcard(w) => {
                if w.is_many {
                    out.push(WILDCARD_MANY_CHAR);
                    proof {
                        assert(render_elem(full[i as int]) =~= seq![WILDCARD_MANY_CHAR]);
                        assert(out@ =~= done + render_elem(full[i as int]));
                    }
                } else {
                    let m: usize = w.minimum;
                    let mut k: usize = 0;
                    proof {
                        assert(out@ =~= done + Seq::new(0, |t: int| WILDCARD_SINGLE_CHAR));
                    }
                    while k < m
                        invariant
                            k <= m,
                            done == spec_render(full.take(i as int)),
                            out@ == done + Seq::new(k as nat, |t: int| WILDCARD_SINGLE_CHAR),
                        decreases m - k,
                    {
                        out.push(WILDCARD_SINGLE_CHAR);
                        proof {
                            assert(out@ =~= done + Seq::new(
                                (k + 1) as nat,
                                |t: int| WILDCARD_SINGLE_CHAR,
                            ));
                        }
                        k += 1;
                    }
                    proof {
                        assert(render_elem(full[i as int]) == Seq::new(
                            w.minimum as nat,
                            |t: int| WILDCARD_SINGLE_CHAR,
                        ));
                    }
                }
            },
        }
        proof {
            assert(out@ == spec_render(full.take(i + 1)));
        }
        i += 1;
    }
    proof {
        assert(full.take(n as int) =~= full);
    }
    out
}

} // verus!
