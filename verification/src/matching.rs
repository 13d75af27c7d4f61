//! The matcher: a forward-only, single-pass walk of the element sequence
//! with one element of lookahead after an unbounded wildcard.
//!
//! An unbounded wildcard followed by a literal commits to the *leftmost*
//! occurrence of that literal in the remaining subject. This keeps
//! matching linear, at the price of reporting a non-match for some
//! subjects where only a later occurrence would lead to an overall match;
//! that trade-off is deliberate and is part of the matcher's contract.

use vstd::prelude::*;

use crate::elements::{elems_view, wf_elems, PatternElement, SpecElement};

verus! {

/// The position of the leftmost occurrence of `v` in `s`, if any.
pub open spec fn spec_find(s: Seq<char>, v: Seq<char>) -> Option<int>
    decreases s.len(),
{
    if v.is_prefix_of(s) {
        Some(0int)
    } else if s.len() == 0 {
        None
    } else {
        match spec_find(s.drop_first(), v) {
            Some(i) => Some(i + 1),
            None => None,
        }
    }
}

/// Whether the element sequence `elems` matches the whole subject `s`.
///
/// This is the matcher's exact semantics, including the leftmost-occurrence
/// policy. A wildcard group directly followed by another wildcard group
/// never occurs in a compiled pattern (the compiler merges them); for such
/// sequences this function is false.
pub open spec fn spec_matches(elems: Seq<SpecElement>, s: Seq<char>) -> bool
    decreases elems.len(),
{
    if elems.len() == 0 {
        s.len() == 0
    } else {
        match elems[0] {
            SpecElement::Substring(v) => v.is_prefix_of(s) && spec_matches(
                elems.drop_first(),
                s.skip(v.len() as int),
            ),
            SpecElement::Wildcard { minimum, is_many } => {
                if s.len() < minimum {
                    false
                } else {
                    let rest = s.skip(minimum as int);
                    if !is_many {
                        spec_matches(elems.drop_first(), rest)
                    } else if elems.len() == 1 {
                        true
                    } else {
                        match elems[1] {
                            SpecElement::Substring(v) => match spec_find(rest, v) {
                                Some(f) => spec_matches(
                                    elems.skip(2),
                                    rest.skip(f + v.len()),
                                ),
                                None => false,
                            },
                            SpecElement::Wildcard { .. } => false,
                        }
                    }
                }
            },
        }
    }
}

/// `spec_find` returns `i` exactly when `v` occurs at `i` and nowhere
/// earlier.
proof fn lemma_find_at(s: Seq<char>, v: Seq<char>, i: int)
    requires
        0 <= i,
        i + v.len() <= s.len(),
        v.is_prefix_of(s.skip(i)),
        forall|j: int| 0 <= j < i ==> !v.is_prefix_of(#[trigger] s.skip(j)),
    ensures
        spec_find(s, v) == Some(i),
    decreases i,
{
    if i == 0 {
        assert(s.skip(0) =~= s);
    } else {
        assert(!v.is_prefix_of(s.skip(0)));
        assert(s.skip(0) =~= s);
        let s1 = s.drop_first();
        assert(s1 =~= s.skip(1));
        assert(s1.skip(i - 1) =~= s.skip(i));
        assert forall|j: int| 0 <= j < i - 1 implies !v.is_prefix_of(#[trigger] s1.skip(j)) by {
            assert(s1.skip(j) =~= s.skip(j + 1));
            assert(!v.is_prefix_of(s.skip(j + 1)));
        }
        lemma_find_at(s1, v, i - 1);
    }
}

/// `spec_find` finds nothing exactly when `v` occurs nowhere in `s`.
proof fn lemma_find_none(s: Seq<char>, v: Seq<char>)
    requires
        forall|j: int| 0 <= j && j + v.len() <= s.len() ==> !v.is_prefix_of(#[trigger] s.skip(j)),
    ensures
        spec_find(s, v) is None,
    decreases s.len(),
{
    assert(s.skip(0) =~= s);
    if v.is_prefix_of(s) {
        assert(!v.is_prefix_of(s.skip(0)));
        assert(false);
    }
    if s.len() > 0 {
        let s1 = s.drop_first();
        assert(s1 =~= s.skip(1));
        assert forall|j: int| 0 <= j && j + v.len() <= s1.len() implies !v.is_prefix_of(
            #[trigger] s1.skip(j),
        ) by {
            assert(s1.skip(j) =~= s.skip(j + 1));
            assert(!v.is_prefix_of(s.skip(j + 1)));
        }
        lemma_find_none(s1, v);
    }
}

/// Whether the characters of `v` stand in `s` starting at `pos`.
fn starts_with_at(s: &Vec<char>, pos: usize, v: &Vec<char>) -> (b: bool)
    requires
        pos <= s@.len(),
    ensures
        b == v@.is_prefix_of(s@.skip(pos as int)),
{
    let ghost sk = s@.skip(pos as int);
    let n: usize = s.len();
    let m: usize = v.len();
    if m > n - pos {
        proof {
            assert(sk.len() == s@.len() - pos);
        }
        return false;
    }
    let mut k: usize = 0;
    while k < m
        invariant
            n == s@.len(),
            m == v@.len(),
            pos + m <= n,
            k <= m,
            sk == s@.skip(pos as int),
            forall|j: int| 0 <= j < k ==> v@[j] == s@[pos + j],
        decreases v@.len() - k,
    {
        if s[pos + k] != v[k] {
            proof {
                if v@.is_prefix_of(sk) {
                    assert(v@[k as int] == sk.subrange(0, v@.len() as int)[k as int]);
                    assert(sk.subrange(0, v@.len() as int)[k as int] == sk[k as int]);
                    assert(sk[k as int] == s@[pos + k]);
                }
            }
            return false;
        }
        k += 1;
    }
    proof {
        assert(v@.len() <= sk.len());
        assert forall|j: int| 0 <= j < v@.len() implies v@[j] == sk.subrange(
            0,
            v@.len() as int,
        )[j] by {
            assert(sk.subrange(0, v@.len() as int)[j] == sk[j]);
            assert(sk[j] == s@[pos + j]);
        }
        assert(v@ =~= sk.subrange(0, v@.len() as int));
    }
    true
}

/// The leftmost occurrence of `v` in `s` at or after `from`, as an
/// absolute position into `s`.
fn find_from(s: &Vec<char>, from: usize, v: &Vec<char>) -> (r: Option<usize>)
    requires
        from <= s@.len(),
    ensures
        match r {
            Some(j) => from <= j && j + v@.len() <= s@.len() && spec_find(
                s@.skip(from as int),
                v@,
            ) == Some((j - from) as int),
            None => spec_find(s@.skip(from as int), v@) is None,
        },
{
    let ghost tail = s@.skip(from as int);
    let n: usize = s.len();
    if v.len() > n - from {
        proof {
            assert(tail.len() == s@.len() - from);
            assert(forall|j: int|
                0 <= j && j + v@.len() <= tail.len() ==> !v@.is_prefix_of(#[trigger] tail.skip(j)));
            lemma_find_none(tail, v@);
        }
        return None;
    }
    let last: usize = n - v.len();
    let mut j: usize = from;
    while j <= last
        invariant
            n == s@.len(),
            v@.len() + last == n,
            last <= n,
            from <= j,
            j <= last + 1,
            tail == s@.skip(from as int),
            forall|t: int| 0 <= t < j - from ==> !v@.is_prefix_of(#[trigger] tail.skip(t)),
        decreases last + 1 - j,
    {
        let ok = starts_with_at(s, j, v);
        if ok {
            proof {
                assert(tail.skip((j - from) as int) =~= s@.skip(j as int));
                lemma_find_at(tail, v@, (j - from) as int);
            }
            return Some(j);
        }
        proof {
            assert(tail.skip((j - from) as int) =~= s@.skip(j as int));
            if v@.len() == 0 {
                assert(v@.is_prefix_of(s@.skip(j as int)));
                assert(false);
            }
            assert(last < n);
        }
        j += 1;
    }
    proof {
        assert forall|t: int| 0 <= t && t + v@.len() <= tail.len() implies !v@.is_prefix_of(
            #[trigger] tail.skip(t),
        ) by {
            assert(tail.len() == s@.len() - from);
            assert(t <= last - from);
            assert(t < j - from);
        }
        lemma_find_none(tail, v@);
    }
    None
}

/// Walk the element sequence once over the subject, exactly as
/// `spec_matches` describes.
#[verifier::rlimit(60)]
pub fn match_elements(elements: &Vec<PatternElement>, s: &Vec<char>) -> (r: bool)
    requires
        wf_elems(elems_view(*elements)),
    ensures
        r == spec_matches(elems_view(*elements), s@),
{
    let ghost full = elems_view(*elements);
    let n: usize = elements.len();
    let mut i: usize = 0;
    let mut pos: usize = 0;
    let slen: usize = s.len();
    proof {
        assert(s@.len() == slen);
        assert(full.skip(0) =~= full);
        assert(s@.skip(0) =~= s@);
    }
    while i < n
        invariant
            n == elements@.len(),
            full == elems_view(*elements),
            wf_elems(full),
            i <= n,
            pos <= s@.len(),
            s@.len() <= usize::MAX,
            spec_matches(full, s@) == spec_matches(full.skip(i as int), s@.skip(pos as int)),
        decreases n - i,
    {
        let ghost cur_elems = full.skip(i as int);
        let ghost cur_s = s@.skip(pos as int);
        proof {
            assert(cur_elems.len() == n - i);
            assert(cur_elems[0] == full[i as int]);
            assert(full[i as int] == elements@[i as int]@);
        }
        match &elements[i] {
            PatternElement::Substring(v) => {
                proof {
                    assert(cur_elems[0] == SpecElement::Substring(v@));
                }
                let ok = starts_with_at(s, pos, v);
                if !ok {
                    proof {
                        assert(!spec_matches(cur_elems, cur_s));
                    }
                    return false;
                }
                proof {
                    assert(v@.len() <= cur_s.len());
                    assert(cur_elems.drop_first() =~= full.skip(i + 1));
                    assert(cur_s.skip(v@.len() as int) =~= s@.skip(pos + v@.len()));
                    assert(spec_matches(cur_elems, cur_s) == spec_matches(
                        full.skip(i + 1),
                        s@.skip(pos + v@.len()),
                    ));
                }
                pos = pos + v.len();
                i = i + 1;
            },
            PatternElement::Wildcard(w) => {
                let ghost pos0 = pos as int;
                proof {
                    assert(cur_elems[0] == SpecElement::Wildcard {
                        minimum: w.minimum as nat,
                        is_many: w.is_many,
                    });
                }
                if w.minimum > 0 {
                    if s.len() - pos < w.minimum {
                        proof {
                            assert(cur_s.len() < w.minimum);
                            assert(!spec_matches(cur_elems, cur_s));
                        }
                        return false;
                    }
                    pos = pos + w.minimum;
                }
                proof {
                    assert(cur_s.len() >= w.minimum);
                    assert(cur_s.skip(w.minimum as int) =~= s@.skip(pos as int));
                }
                let ghost rest = s@.skip(pos as int);
                if w.is_many {
                    if i + 1 == n {
                        proof {
                            assert(cur_elems.len() == 1);
                            assert(spec_matches(cur_elems, cur_s));
                        }
                        return true;
                    }
                    proof {
                        assert(cur_elems[1] == full[i + 1]);
                        assert(full[i + 1] == elements@[i + 1]@);
                    }
                    match &elements[i + 1] {
                        PatternElement::Substring(v2) => {
                            proof {
                                assert(cur_elems[1] == SpecElement::Substring(v2@));
                            }
                            match find_from(s, pos, v2) {
                                Some(j) => {
                                    proof {
                                        assert(spec_find(rest, v2@) == Some((j - pos) as int));
                                        assert(cur_elems.skip(2) =~= full.skip(i + 2));
                                        assert(rest.skip((j - pos) + v2@.len()) =~= s@.skip(
                                            j + v2@.len(),
                                        ));
                                        assert(spec_matches(cur_elems, cur_s) == spec_matches(
                                            full.skip(i + 2),
                                            s@.skip(j + v2@.len()),
                                        ));
                                    }
                                    pos = j + v2.len();
                                    i = i + 2;
                                },
                                None => {
                                    proof {
                                        assert(spec_find(rest, v2@) is None);
                                        assert(!spec_matches(cur_elems, cur_s));
                                    }
                                    return false;
                                },
                            }
                        },
                        PatternElement::Wildcard(_) => {
                            proof {
                                assert(cur_elems[0] is Wildcard);
                                assert(cur_elems[1] is Wildcard);
                                assert(full[i as int] is Wildcard && full[i + 1] is Wildcard);
                                assert(false);
                            }
                            return false;
                        },
                    }
                } else {
                    proof {
                        assert(cur_elems.drop_first() =~= full.skip(i + 1));
                        assert(spec_matches(cur_elems, cur_s) == spec_matches(
                            full.skip(i + 1),
                            rest,
                        ));
                    }
                    i = i + 1;
                }
            },
        }
    }
    proof {
        assert(full.skip(i as int) =~= Seq::<SpecElement>::empty());
        assert(spec_matches(full.skip(i as int), s@.skip(pos as int)) == (s@.len() - pos == 0));
    }
    pos == s.len()
}

} // verus!
