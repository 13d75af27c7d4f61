//! Laws of the compiler, matcher and serializer, stated over the
//! mathematical model and proved once and for all.

use vstd::prelude::*;

use crate::elements::{
    valid_elem, wf_elems, SpecElement, ESCAPE_CHAR, WILDCARD_MANY_CHAR, WILDCARD_SINGLE_CHAR,
};
use crate::matching::spec_matches;
use crate::render::{
    esc_char, esc_text, lemma_esc_text_app, lemma_render_app, lemma_render_one, render_elem,
    spec_render,
};
use crate::scan::{
    flush_elems, initial_state, lemma_compile_wf, lemma_scan_app, scan, scan_step, spec_compile,
    ScanState,
};

verus! {

/// A source text holding no wildcard characters at all.
pub open spec fn no_wildcards(src: Seq<char>) -> bool {
    forall|i: int|
        0 <= i < src.len() ==> (#[trigger] src[i]) != crate::elements::WILDCARD_SINGLE_CHAR
            && src[i] != crate::elements::WILDCARD_MANY_CHAR
}

/// The literal text of a source: its characters with every unescaped
/// escape character consumed.
pub open spec fn spec_literal(src: Seq<char>, escape: bool) -> Seq<char>
    decreases src.len(),
{
    if src.len() == 0 {
        Seq::empty()
    } else if !escape && src[0] == ESCAPE_CHAR {
        spec_literal(src.drop_first(), true)
    } else {
        seq![src[0]] + spec_literal(src.drop_first(), false)
    }
}

/// An element sequence made of literal runs alone.
pub open spec fn all_substrings(elems: Seq<SpecElement>) -> bool {
    forall|i: int| 0 <= i < elems.len() ==> (#[trigger] elems[i]) is Substring
}

pub open spec fn sub_text(e: SpecElement) -> Seq<char> {
    match e {
        SpecElement::Substring(v) => v,
        SpecElement::Wildcard { .. } => Seq::empty(),
    }
}

/// The concatenated literal text of an element sequence of literal runs.
pub open spec fn concat_subs(elems: Seq<SpecElement>) -> Seq<char>
    decreases elems.len(),
{
    if elems.len() == 0 {
        Seq::empty()
    } else {
        sub_text(elems[0]) + concat_subs(elems.drop_first())
    }
}

proof fn lemma_concat_subs_snoc(elems: Seq<SpecElement>, e: SpecElement)
    ensures
        concat_subs(elems.push(e)) == concat_subs(elems) + sub_text(e),
    decreases elems.len(),
{
    if elems.len() == 0 {
        let one = elems.push(e);
        assert(one[0] == e);
        assert(one.drop_first() =~= Seq::<SpecElement>::empty());
        assert(concat_subs(one) == sub_text(e) + concat_subs(Seq::<SpecElement>::empty()));
        assert(sub_text(e) + Seq::<char>::empty() =~= sub_text(e));
        assert(concat_subs(elems) + sub_text(e) =~= sub_text(e));
    } else {
        let whole = elems.push(e);
        assert(whole[0] == elems[0]);
        assert(whole.drop_first() =~= elems.drop_first().push(e));
        lemma_concat_subs_snoc(elems.drop_first(), e);
        assert((sub_text(elems[0]) + concat_subs(elems.drop_first())) + sub_text(e) =~= sub_text(
            elems[0],
        ) + (concat_subs(elems.drop_first()) + sub_text(e)));
    }
}

/// The literal text of a scan state: what its elements and pending run
/// spell, when everything is a literal.
spec fn state_literal(st: ScanState) -> Seq<char> {
    concat_subs(st.elems) + st.pending
}

/// Over a wildcard-free source the scan only accumulates literal runs,
/// and spells exactly the source's literal text.
proof fn lemma_scan_literal(st: ScanState, src: Seq<char>)
    requires
        no_wildcards(src),
        all_substrings(st.elems),
    ensures
        all_substrings(scan(st, src).elems),
        state_literal(scan(st, src)) == state_literal(st) + spec_literal(src, st.escape),
    decreases src.len(),
{
    if src.len() == 0 {
        assert(state_literal(st) + spec_literal(src, st.escape) =~= state_literal(st));
    } else {
        let c = src[0];
        let st1 = scan_step(st, c);
        assert(scan(st, src) == scan(st1, src.drop_first()));
        assert forall|i: int| 0 <= i < src.drop_first().len() implies (#[trigger] src.drop_first()[
            i
        ]) != crate::elements::WILDCARD_SINGLE_CHAR && src.drop_first()[i]
            != crate::elements::WILDCARD_MANY_CHAR by {
            assert(src.drop_first()[i] == src[i + 1]);
        }
        if !st.escape && c == ESCAPE_CHAR {
            // flush; nothing is spelled by the escape character itself
            if st.pending.len() > 0 {
                lemma_concat_subs_snoc(st.elems, SpecElement::Substring(st.pending));
                assert forall|i: int| 0 <= i < st1.elems.len() implies (#[trigger] st1.elems[i])
                    is Substring by {
                    if i < st.elems.len() {
                        assert(st1.elems[i] == st.elems[i]);
                    }
                }
            }
            assert(state_literal(st1) =~= state_literal(st));
            lemma_scan_literal(st1, src.drop_first());
            assert(spec_literal(src, st.escape) == spec_literal(src.drop_first(), true));
            assert(state_literal(st) + spec_literal(src.drop_first(), true) =~= (state_literal(st)
                + Seq::<char>::empty()) + spec_literal(src.drop_first(), true));
        } else {
            // a literal character, possibly escaped, extends the pending run
            assert(st1.elems == st.elems);
            assert(st1.pending == st.pending.push(c));
            assert(state_literal(st1) =~= state_literal(st) + seq![c]);
            lemma_scan_literal(st1, src.drop_first());
            assert(spec_literal(src, st.escape) == seq![c] + spec_literal(
                src.drop_first(),
                false,
            ));
            assert((state_literal(st) + seq![c]) + spec_literal(src.drop_first(), false)
                =~= state_literal(st) + (seq![c] + spec_literal(src.drop_first(), false)));
        }
    }
}

/// An element sequence of literal runs matches exactly its concatenated
/// literal text.
pub proof fn lemma_matches_all_substrings(elems: Seq<SpecElement>, s: Seq<char>)
    requires
        all_substrings(elems),
    ensures
        spec_matches(elems, s) <==> s == concat_subs(elems),
    decreases elems.len(),
{
    if elems.len() == 0 {
        if s.len() == 0 {
            assert(s =~= Seq::<char>::empty());
            assert(concat_subs(elems) =~= Seq::<char>::empty());
        }
    } else {
        let v = sub_text(elems[0]);
        assert(elems[0] is Substring);
        assert(elems[0] == SpecElement::Substring(v));
        assert forall|i: int| 0 <= i < elems.drop_first().len() implies (#[trigger] elems.drop_first()[
            i
        ]) is Substring by {
            assert(elems.drop_first()[i] == elems[i + 1]);
        }
        lemma_matches_all_substrings(elems.drop_first(), s.skip(v.len() as int));
        if spec_matches(elems, s) {
            assert(v.is_prefix_of(s));
            assert(s.skip(v.len() as int) == concat_subs(elems.drop_first()));
            assert(s =~= v + concat_subs(elems.drop_first()));
        }
        if s == concat_subs(elems) {
            assert(s == v + concat_subs(elems.drop_first()));
            assert(v =~= s.subrange(0, v.len() as int));
            assert(v.is_prefix_of(s));
            assert(s.skip(v.len() as int) =~= concat_subs(elems.drop_first()));
        }
    }
}

/// A pattern whose source holds no wildcard characters matches a subject
/// exactly when the subject equals the source's literal text (the source
/// with its escape characters consumed; a source without escape
/// characters is its own literal text).
pub proof fn lemma_literal_pattern_matches_exactly(src: Seq<char>, s: Seq<char>)
    requires
        no_wildcards(src),
    ensures
        spec_matches(spec_compile(src), s) <==> s == spec_literal(src, false),
{
    lemma_scan_literal(initial_state(), src);
    let st = scan(initial_state(), src);
    assert(state_literal(initial_state()) =~= Seq::<char>::empty());
    assert(state_literal(st) =~= spec_literal(src, false));
    let compiled = flush_elems(st);
    if st.pending.len() > 0 {
        lemma_concat_subs_snoc(st.elems, SpecElement::Substring(st.pending));
        assert forall|i: int| 0 <= i < compiled.len() implies (#[trigger] compiled[i])
            is Substring by {
            if i < st.elems.len() {
                assert(compiled[i] == st.elems[i]);
            }
        }
    }
    assert(concat_subs(compiled) =~= state_literal(st));
    lemma_matches_all_substrings(compiled, s);
}

/// A single unbounded wildcard matches every subject, the empty one
/// included.
pub proof fn lemma_star_matches_all(s: Seq<char>)
    ensures
        spec_matches(spec_compile("*"@), s),
{
    reveal_strlit("*");
    let t = "*"@;
    assert(t.len() == 1);
    assert(t[0] == crate::elements::WILDCARD_MANY_CHAR);
    let st1 = scan_step(initial_state(), t[0]);
    assert(scan(initial_state(), t) == scan(st1, t.drop_first()));
    assert(t.drop_first().len() == 0);
    let star = SpecElement::Wildcard { minimum: 0, is_many: true };
    assert(st1.elems =~= seq![star]);
    assert(spec_compile(t) =~= seq![star]);
    assert(spec_matches(seq![star], s));
}

/// Merging adjacent unbounded wildcards is idempotent: a doubled
/// many-wildcard compiles to the very element sequence a single one does,
/// so the two patterns match exactly the same subjects.
pub proof fn lemma_doubled_star_same(s: Seq<char>)
    ensures
        spec_compile("**"@) == spec_compile("*"@),
        spec_matches(spec_compile("**"@), s) == spec_matches(spec_compile("*"@), s),
{
    reveal_strlit("*");
    reveal_strlit("**");
    let t1 = "*"@;
    let t2 = "**"@;
    let star = SpecElement::Wildcard { minimum: 0, is_many: true };
    assert(t1.len() == 1 && t1[0] == crate::elements::WILDCARD_MANY_CHAR);
    assert(t2.len() == 2 && t2[0] == crate::elements::WILDCARD_MANY_CHAR && t2[1]
        == crate::elements::WILDCARD_MANY_CHAR);
    let st1 = scan_step(initial_state(), t1[0]);
    assert(scan(initial_state(), t1) == scan(st1, t1.drop_first()));
    assert(t1.drop_first().len() == 0);
    assert(st1.elems =~= seq![star]);
    assert(spec_compile(t1) =~= seq![star]);
    let u1 = scan_step(initial_state(), t2[0]);
    assert(u1.elems =~= seq![star]);
    let rest = t2.drop_first();
    assert(scan(initial_state(), t2) == scan(u1, rest));
    assert(rest.len() == 1 && rest[0] == crate::elements::WILDCARD_MANY_CHAR);
    let u2 = scan_step(u1, rest[0]);
    assert(scan(u1, rest) == scan(u2, rest.drop_first()));
    assert(rest.drop_first().len() == 0);
    assert(u2.elems =~= seq![star]);
    assert(spec_compile(t2) =~= seq![star]);
}

/// A doubled single wildcard matches exactly the subjects of two Unicode
/// scalar values.
pub proof fn lemma_doubled_single_matches_len_two(s: Seq<char>)
    ensures
        spec_matches(spec_compile("??"@), s) <==> s.len() == 2,
{
    reveal_strlit("??");
    let t = "??"@;
    assert(t.len() == 2 && t[0] == crate::elements::WILDCARD_SINGLE_CHAR && t[1]
        == crate::elements::WILDCARD_SINGLE_CHAR);
    let one = SpecElement::Wildcard { minimum: 1, is_many: false };
    let two = SpecElement::Wildcard { minimum: 2, is_many: false };
    let u1 = scan_step(initial_state(), t[0]);
    assert(u1.elems =~= seq![one]);
    let rest = t.drop_first();
    assert(scan(initial_state(), t) == scan(u1, rest));
    assert(rest.len() == 1 && rest[0] == crate::elements::WILDCARD_SINGLE_CHAR);
    let u2 = scan_step(u1, rest[0]);
    assert(scan(u1, rest) == scan(u2, rest.drop_first()));
    assert(rest.drop_first().len() == 0);
    assert(u2.elems =~= seq![one].update(0, two));
    assert(seq![one].update(0, two) =~= seq![two]);
    assert(spec_compile(t) =~= seq![two]);
    if s.len() >= 2 {
        assert(spec_matches(seq![two], s) == spec_matches(
            seq![two].drop_first(),
            s.skip(2),
        ));
        assert(seq![two].drop_first().len() == 0);
        assert(spec_matches(seq![two], s) == (s.skip(2).len() == 0));
    }
}

/// The canonical text a scan state spells: its elements' canonical text
/// followed by the pending literal run, escaped.
pub open spec fn state_render(st: ScanState) -> Seq<char> {
    spec_render(st.elems) + esc_text(st.pending)
}

/// Flushing does not change what a state spells.
proof fn lemma_flush_render(st: ScanState)
    ensures
        spec_render(flush_elems(st)) == state_render(st),
{
    if st.pending.len() > 0 {
        let sub = SpecElement::Substring(st.pending);
        assert(st.elems.push(sub) =~= st.elems + seq![sub]);
        lemma_render_app(st.elems, seq![sub]);
        lemma_render_one(sub);
    } else {
        assert(esc_text(st.pending).len() == 0);
        assert(spec_render(st.elems) + esc_text(st.pending) =~= spec_render(st.elems));
    }
}

/// Scanning the canonical text of one literal character extends the
/// pending run by that character.
proof fn lemma_scan_esc_char(st: ScanState, c: char)
    requires
        !st.escape,
    ensures
        ({
            let st2 = scan(st, esc_char(c));
            &&& !st2.escape
            &&& st2.pending.len() > 0
            &&& state_render(st2) == state_render(st) + esc_char(c)
        }),
{
    if c == ESCAPE_CHAR || c == WILDCARD_SINGLE_CHAR || c == WILDCARD_MANY_CHAR {
        let t = esc_char(c);
        assert(t.len() == 2 && t[0] == ESCAPE_CHAR && t[1] == c);
        let st1 = scan_step(st, ESCAPE_CHAR);
        assert(scan(st, t) == scan(st1, t.drop_first()));
        assert(t.drop_first().len() == 1 && t.drop_first()[0] == c);
        let st2 = scan_step(st1, c);
        assert(scan(st1, t.drop_first()) == scan(st2, t.drop_first().drop_first()));
        assert(t.drop_first().drop_first().len() == 0);
        lemma_flush_render(st);
        assert(st2.pending =~= seq![c]);
        assert(seq![c][0] == c);
        assert(esc_text(seq![c]) == esc_char(c) + esc_text(seq![c].drop_first()));
        assert(seq![c].drop_first().len() == 0);
        assert(esc_text(seq![c].drop_first()).len() == 0);
        assert(esc_char(c) + esc_text(seq![c].drop_first()) =~= esc_char(c));
        assert(state_render(st2) =~= state_render(st) + esc_char(c));
    } else {
        let t = esc_char(c);
        assert(t.len() == 1 && t[0] == c);
        let st1 = scan_step(st, c);
        assert(scan(st, t) == scan(st1, t.drop_first()));
        assert(t.drop_first().len() == 0);
        assert(st1.pending == st.pending.push(c));
        assert(st.pending.push(c) =~= st.pending + seq![c]);
        lemma_esc_text_app(st.pending, seq![c]);
        assert(seq![c][0] == c);
        assert(esc_text(seq![c]) == esc_char(c) + esc_text(seq![c].drop_first()));
        assert(seq![c].drop_first().len() == 0);
        assert(esc_text(seq![c].drop_first()).len() == 0);
        assert(esc_char(c) + esc_text(seq![c].drop_first()) =~= esc_char(c));
        assert(state_render(st1) =~= state_render(st) + esc_char(c));
    }
}

/// Scanning the canonical text of a literal run appends it, escaped, to
/// what the state spells; a non-empty run leaves a pending literal.
proof fn lemma_scan_esc_text(st: ScanState, v: Seq<char>)
    requires
        !st.escape,
    ensures
        ({
            let st2 = scan(st, esc_text(v));
            &&& !st2.escape
            &&& state_render(st2) == state_render(st) + esc_text(v)
            &&& (v.len() > 0 ==> st2.pending.len() > 0)
        }),
    decreases v.len(),
{
    if v.len() == 0 {
        assert(esc_text(v).len() == 0);
        assert(scan(st, esc_text(v)) == st);
        assert(state_render(st) + esc_text(v) =~= state_render(st));
    } else {
        assert(esc_text(v) == esc_char(v[0]) + esc_text(v.drop_first()));
        lemma_scan_app(st, esc_char(v[0]), esc_text(v.drop_first()));
        lemma_scan_esc_char(st, v[0]);
        let st1 = scan(st, esc_char(v[0]));
        lemma_scan_esc_text(st1, v.drop_first());
        assert((state_render(st) + esc_char(v[0])) + esc_text(v.drop_first()) =~= state_render(st)
            + (esc_char(v[0]) + esc_text(v.drop_first())));
        if v.drop_first().len() == 0 {
            assert(esc_text(v.drop_first()).len() == 0);
            assert(scan(st1, esc_text(v.drop_first())) == st1);
        }
    }
}

/// Scanning a run of single-wildcard characters folds each of them into
/// the open trailing wildcard group.
proof fn lemma_scan_singles(elems: Seq<SpecElement>, m0: nat, many: bool, k: nat)
    requires
        elems.len() > 0,
        (elems.last() == SpecElement::Wildcard { minimum: m0, is_many: many }),
    ensures
        (scan(
            ScanState { elems, pending: Seq::empty(), escape: false },
            Seq::new(k, |t: int| WILDCARD_SINGLE_CHAR),
        ) == ScanState {
            elems: elems.update(
                elems.len() - 1,
                SpecElement::Wildcard { minimum: (m0 + k) as nat, is_many: many },
            ),
            pending: Seq::empty(),
            escape: false,
        }),
    decreases k,
{
    let st = ScanState { elems, pending: Seq::empty(), escape: false };
    let q = Seq::new(k, |t: int| WILDCARD_SINGLE_CHAR);
    if k == 0 {
        assert(q.len() == 0);
        assert(scan(st, q) == st);
        assert(elems.update(elems.len() - 1, SpecElement::Wildcard { minimum: (m0 + 0) as nat, is_many: many })
            =~= elems);
    } else {
        assert(q[0] == WILDCARD_SINGLE_CHAR);
        let st1 = scan_step(st, q[0]);
        assert(scan(st, q) == scan(st1, q.drop_first()));
        assert(q.drop_first() =~= Seq::new((k - 1) as nat, |t: int| WILDCARD_SINGLE_CHAR));
        assert(flush_elems(st) == elems);
        let elems1 = elems.update(
            elems.len() - 1,
            SpecElement::Wildcard { minimum: (m0 + 1) as nat, is_many: many },
        );
        assert(st1.elems == elems1);
        assert(st1.pending =~= Seq::<char>::empty());
        assert(st1 == ScanState { elems: elems1, pending: Seq::empty(), escape: false });
        assert(elems1.last() == SpecElement::Wildcard { minimum: (m0 + 1) as nat, is_many: many });
        lemma_scan_singles(elems1, (m0 + 1) as nat, many, (k - 1) as nat);
        assert(elems1.update(
            elems1.len() - 1,
            SpecElement::Wildcard { minimum: (m0 + 1 + (k - 1)) as nat, is_many: many },
        ) =~= elems.update(
            elems.len() - 1,
            SpecElement::Wildcard { minimum: (m0 + k) as nat, is_many: many },
        ));
    }
}

/// Scanning the canonical text of a wildcard group, from a state whose
/// flushed elements cannot merge with it, appends one group that renders
/// the same text.
proof fn lemma_scan_wildcard_render(st: ScanState, minimum: nat, is_many: bool)
    requires
        !st.escape,
        minimum > 0 || is_many,
        st.pending.len() > 0 || st.elems.len() == 0 || !(st.elems.last() is Wildcard),
    ensures
        ({
            let st2 = scan(st, render_elem(SpecElement::Wildcard { minimum, is_many }));
            &&& !st2.escape
            &&& st2.pending.len() == 0
            &&& st2.elems.len() > 0 && st2.elems.last() is Wildcard
            &&& state_render(st2) == state_render(st) + render_elem(
                SpecElement::Wildcard { minimum, is_many },
            )
        }),
{
    let e = SpecElement::Wildcard { minimum, is_many };
    let flushed = flush_elems(st);
    if st.pending.len() > 0 {
        assert(flushed.last() == SpecElement::Substring(st.pending));
    }
    assert(flushed.len() == 0 || !(flushed.last() is Wildcard));
    lemma_flush_render(st);
    if is_many {
        let t = render_elem(e);
        assert(t =~= seq![WILDCARD_MANY_CHAR]);
        assert(t.len() == 1 && t[0] == WILDCARD_MANY_CHAR);
        let st1 = scan_step(st, WILDCARD_MANY_CHAR);
        assert(scan(st, t) == scan(st1, t.drop_first()));
        assert(t.drop_first().len() == 0);
        let star = SpecElement::Wildcard { minimum: 0, is_many: true };
        assert(st1.elems == flushed.push(star));
        assert(flushed.push(star) =~= flushed + seq![star]);
        lemma_render_app(flushed, seq![star]);
        lemma_render_one(star);
        assert(render_elem(star) =~= render_elem(e));
        assert(st1.pending =~= Seq::<char>::empty());
        assert(esc_text(st1.pending).len() == 0);
        assert(state_render(st1) =~= state_render(st) + render_elem(e));
    } else {
        let t = render_elem(e);
        assert(t =~= Seq::new(minimum, |x: int| WILDCARD_SINGLE_CHAR));
        assert(t =~= seq![WILDCARD_SINGLE_CHAR] + Seq::new(
            (minimum - 1) as nat,
            |x: int| WILDCARD_SINGLE_CHAR,
        ));
        lemma_scan_app(
            st,
            seq![WILDCARD_SINGLE_CHAR],
            Seq::new((minimum - 1) as nat, |x: int| WILDCARD_SINGLE_CHAR),
        );
        assert(seq![WILDCARD_SINGLE_CHAR][0] == WILDCARD_SINGLE_CHAR);
        let st1 = scan_step(st, WILDCARD_SINGLE_CHAR);
        assert(scan(st, seq![WILDCARD_SINGLE_CHAR]) == scan(
            st1,
            seq![WILDCARD_SINGLE_CHAR].drop_first(),
        ));
        assert(seq![WILDCARD_SINGLE_CHAR].drop_first().len() == 0);
        let oneq = SpecElement::Wildcard { minimum: 1, is_many: false };
        assert(st1.elems == flushed.push(oneq));
        assert(st1.pending =~= Seq::<char>::empty());
        assert(st1 == ScanState {
            elems: flushed.push(oneq),
            pending: Seq::empty(),
            escape: false,
        });
        assert(flushed.push(oneq).last() == oneq);
        lemma_scan_singles(flushed.push(oneq), 1, false, (minimum - 1) as nat);
        let st2 = scan(st1, Seq::new((minimum - 1) as nat, |x: int| WILDCARD_SINGLE_CHAR));
        let grown = SpecElement::Wildcard { minimum: (1 + (minimum - 1)) as nat, is_many: false };
        assert(st2.elems == flushed.push(oneq).update(flushed.len() as int, grown));
        assert(st2.elems =~= flushed.push(e));
        assert(flushed.push(e) =~= flushed + seq![e]);
        lemma_render_app(flushed, seq![e]);
        lemma_render_one(e);
        assert(esc_text(st2.pending).len() == 0);
        assert(state_render(st2) =~= state_render(st) + render_elem(e));
    }
}

/// Scanning the canonical text of a well-formed element sequence spells
/// exactly that canonical text.
proof fn lemma_scan_render(st: ScanState, e: Seq<SpecElement>)
    requires
        !st.escape,
        wf_elems(e),
        (e.len() > 0 && e[0] is Wildcard) ==> (st.pending.len() > 0 || st.elems.len() == 0 || !(
        st.elems.last() is Wildcard)),
    ensures
        ({
            let st2 = scan(st, spec_render(e));
            &&& !st2.escape
            &&& state_render(st2) == state_render(st) + spec_render(e)
        }),
    decreases e.len(),
{
    if e.len() == 0 {
        assert(spec_render(e).len() == 0);
        assert(scan(st, spec_render(e)) == st);
        assert(state_render(st) + spec_render(e) =~= state_render(st));
    } else {
        assert(spec_render(e) == render_elem(e[0]) + spec_render(e.drop_first()));
        lemma_scan_app(st, render_elem(e[0]), spec_render(e.drop_first()));
        let st1 = scan(st, render_elem(e[0]));
        let rest = e.drop_first();
        assert forall|i: int| 0 <= i < rest.len() implies valid_elem(#[trigger] rest[i]) by {
            assert(rest[i] == e[i + 1]);
        }
        assert forall|i: int| 0 <= i && i + 1 < rest.len() implies !((#[trigger] rest[i])
            is Wildcard && rest[i + 1] is Wildcard) by {
            assert(rest[i] == e[i + 1]);
            assert(rest[i + 1] == e[i + 2]);
        }
        assert(valid_elem(e[0]));
        match e[0] {
            SpecElement::Substring(v) => {
                assert(v.len() > 0);
                lemma_scan_esc_text(st, v);
                lemma_scan_render(st1, rest);
            },
            SpecElement::Wildcard { minimum, is_many } => {
                lemma_scan_wildcard_render(st, minimum, is_many);
                if rest.len() > 0 && rest[0] is Wildcard {
                    assert(rest[0] == e[1]);
                    assert(e[0] is Wildcard && e[1] is Wildcard);
                    assert(false);
                }
                lemma_scan_render(st1, rest);
            },
        }
        assert((state_render(st) + render_elem(e[0])) + spec_render(rest) =~= state_render(st) + (
        render_elem(e[0]) + spec_render(rest)));
    }
}

/// Compiling the canonical text of a well-formed element sequence gives
/// an element sequence with the very same canonical text.
pub proof fn lemma_compile_of_render(e: Seq<SpecElement>)
    requires
        wf_elems(e),
    ensures
        spec_render(spec_compile(spec_render(e))) == spec_render(e),
{
    let init = initial_state();
    lemma_scan_render(init, e);
    let st2 = scan(init, spec_render(e));
    lemma_flush_render(st2);
    assert(spec_render(init.elems).len() == 0);
    assert(esc_text(init.pending).len() == 0);
    assert(state_render(init) =~= Seq::<char>::empty());
    assert(Seq::<char>::empty() + spec_render(e) =~= spec_render(e));
}

/// Canonicalization reaches a fixed point after one round: recompiling a
/// pattern's canonical text and rendering again gives that canonical text
/// back, for every source string.
pub proof fn lemma_canonical_fixed_point(src: Seq<char>)
    ensures
        spec_render(spec_compile(spec_render(spec_compile(src)))) == spec_render(
            spec_compile(src),
        ),
{
    lemma_compile_wf(src);
    lemma_compile_of_render(spec_compile(src));
}

} // verus!
