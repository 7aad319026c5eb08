use vstd::prelude::*;
use vstd::set_lib::lemma_set_disjoint_lens;
use crate::lex::is_prefix;
use crate::table::{next_count, occurrences, suf, SuffixTable};

verus! {

/// The sum of `next_count(text, q, t)` over the tokens `t < v`.
pub open spec fn sum_next(text: Seq<u16>, q: Seq<u16>, v: int) -> nat
    decreases v,
{
    if v <= 0 {
        0
    } else {
        sum_next(text, q, v - 1) + next_count(text, q, v - 1)
    }
}

/// The non-empty `q` occurs at the very end of `text`, where no token follows it.
pub open spec fn ends_with(text: Seq<u16>, q: Seq<u16>) -> bool {
    0 < q.len() <= text.len() && is_prefix(q, suf(text, text.len() - q.len()))
}

/// The occurrences of `q` at the end of `text`: one or none.
pub open spec fn end_term(text: Seq<u16>, q: Seq<u16>) -> nat {
    if ends_with(text, q) {
        1
    } else {
        0
    }
}

/// The sum of the first `k` entries of `s`.
pub open spec fn sum_prefix(s: Seq<usize>, k: int) -> int
    decreases k,
{
    if k <= 0 {
        0
    } else {
        sum_prefix(s, k - 1) + s[k - 1]
    }
}

/// Occurrences of `q` that some token below `v` follows.
spec fn followed_below(text: Seq<u16>, q: Seq<u16>, v: int) -> Set<u64> {
    occurrences(text, q).filter(
        |p: u64| (p as int) + q.len() < text.len() && (text[(p as int) + q.len()] as int) < v,
    )
}

proof fn lemma_extend_occurrence(text: Seq<u16>, q: Seq<u16>, t: u16, p: u64)
    requires
        (p as int) < text.len(),
    ensures
        is_prefix(q.push(t), suf(text, p as int)) <==> (is_prefix(q, suf(text, p as int)) && (p as int)
            + q.len() < text.len() && text[(p as int) + q.len()] == t),
{
    let s = suf(text, p as int);
    let m = q.len() as int;
    if is_prefix(q.push(t), s) {
        assert(s.subrange(0, m) =~= s.subrange(0, m + 1).subrange(0, m));
        assert(q.push(t).subrange(0, m) =~= q);
        assert(s.subrange(0, m + 1)[m] == q.push(t)[m]);
    }
    if is_prefix(q, s) && (p as int) + q.len() < text.len() && text[(p as int) + q.len()] == t {
        assert(s.subrange(0, m + 1) =~= q.push(t));
    }
}

proof fn lemma_followed_below(st: &SuffixTable, q: Seq<u16>, v: int)
    requires
        st.wf(),
        0 <= v <= 65536,
    ensures
        followed_below(st.text_view(), q, v).finite(),
        followed_below(st.text_view(), q, v).len() == sum_next(st.text_view(), q, v),
    decreases v,
{
    let text = st.text_view();
    st.lemma_occurrences_bound(q);
    occurrences(text, q).lemma_len_filter(
        |p: u64| (p as int) + q.len() < text.len() && (text[(p as int) + q.len()] as int) < v,
    );
    if v == 0 {
        assert(followed_below(text, q, 0) =~= Set::empty());
    } else {
        lemma_followed_below(st, q, v - 1);
        let t = (v - 1) as u16;
        let prev = followed_below(text, q, v - 1);
        let here = occurrences(text, q.push(t));
        assert forall|p: u64| #[trigger] here.contains(p) || prev.contains(p) || followed_below(text, q, v).contains(p) implies
            (here.contains(p) <==> (occurrences(text, q).contains(p) && (p as int) + q.len() < text.len()
                && text[(p as int) + q.len()] == t)) by {
            lemma_extend_occurrence(text, q, t, p);
        }
        assert(followed_below(text, q, v) =~= prev + here);
        assert(prev.disjoint(here));
        st.lemma_occurrences_bound(q.push(t));
        lemma_set_disjoint_lens(prev, here);
    }
}

/// Count consistency: over a vocabulary `v` that holds every token of the text, the counts
/// of the tokens that follow `q`, plus the occurrence of `q` at the very end of the text,
/// add up to the number of occurrences of `q`.
pub proof fn law_count_consistency(st: &SuffixTable, q: Seq<u16>, v: int)
    requires
        st.wf(),
        0 <= v <= 65536,
        forall|i: int| 0 <= i < st.text_view().len() ==> (#[trigger] st.text_view()[i] as int) < v,
    ensures
        sum_next(st.text_view(), q, v) + end_term(st.text_view(), q) == occurrences(
            st.text_view(),
            q,
        ).len(),
{
    let text = st.text_view();
    let n = text.len() as int;
    let occ = occurrences(text, q);
    lemma_followed_below(st, q, v);
    st.lemma_occurrences_bound(q);
    let fb = followed_below(text, q, v);
    let tail = occ.filter(|p: u64| (p as int) + q.len() >= n);
    occ.lemma_len_filter(|p: u64| (p as int) + q.len() >= n);
    assert(occ =~= fb + tail);
    assert(fb.disjoint(tail));
    lemma_set_disjoint_lens(fb, tail);
    if ends_with(text, q) {
        let e = (n - q.len()) as u64;
        assert(tail =~= Set::empty().insert(e)) by {
            assert forall|p: u64| tail.contains(p) implies p == e by {
                assert(suf(text, p as int).len() == n - p);
            }
            assert(e as int == n - q.len());
            assert(occ.contains(e));
        }
    } else {
        assert(tail =~= Set::empty()) by {
            assert forall|p: u64| !tail.contains(p) by {
                if tail.contains(p) {
                    assert(suf(text, p as int).len() == n - p);
                    assert((p as int) == n - q.len());
                }
            }
        }
    }
}

/// Positions and counts agree: for a non-empty `q`, the positions at which `q` occurs are
/// as many as the counts of all tokens after `q` together, plus one if `q` ends the text.
pub proof fn law_positions_bijection(st: &SuffixTable, q: Seq<u16>)
    requires
        st.wf(),
        q.len() > 0,
    ensures
        occurrences(st.text_view(), q).len() == sum_next(st.text_view(), q, 65536) + end_term(
            st.text_view(),
            q,
        ),
{
    law_count_consistency(st, q, 65536);
}

proof fn lemma_sum_next_positive(text: Seq<u16>, q: Seq<u16>, v: int)
    ensures
        sum_next(text, q, v) > 0 <==> exists|t: int| 0 <= t < v && #[trigger] next_count(text, q, t) > 0,
    decreases v,
{
    if v > 0 {
        lemma_sum_next_positive(text, q, v - 1);
        if exists|t: int| 0 <= t < v && #[trigger] next_count(text, q, t) > 0 {
            let t = choose|t: int| 0 <= t < v && #[trigger] next_count(text, q, t) > 0;
            if t < v - 1 {
                assert(0 <= t < v - 1 && next_count(text, q, t) > 0);
            }
        }
    }
}

/// Round trip between `contains`, `positions` and `count_next`: a non-empty `q` occurs in
/// the text exactly when some token follows one of its occurrences, or it ends the text.
pub proof fn law_contains_round_trip(st: &SuffixTable, q: Seq<u16>)
    requires
        st.wf(),
        q.len() > 0,
    ensures
        occurrences(st.text_view(), q).len() > 0 <==> ((exists|t: int|
            0 <= t < 65536 && #[trigger] next_count(st.text_view(), q, t) > 0) || ends_with(
            st.text_view(),
            q,
        )),
{
    law_count_consistency(st, q, 65536);
    lemma_sum_next_positive(st.text_view(), q, 65536);
}

/// The entries of a vector that holds `next_count(text, q, t)` at each `t` add up to
/// `sum_next`.
pub proof fn lemma_sum_counts(s: Seq<usize>, text: Seq<u16>, q: Seq<u16>, k: int)
    requires
        0 <= k <= s.len(),
        forall|t: int| 0 <= t < s.len() ==> #[trigger] s[t] == next_count(text, q, t),
    ensures
        sum_prefix(s, k) == sum_next(text, q, k),
    decreases k,
{
    if k > 0 {
        lemma_sum_counts(s, text, q, k - 1);
    }
}

/// Counts are determined by the text alone: any two well-formed tables over the same
/// tokens, however they were built or stored, report the same count for every query and
/// token.
pub proof fn law_counts_determined(s1: &SuffixTable, s2: &SuffixTable, q: Seq<u16>, t: int)
    requires
        s1.wf(),
        s2.wf(),
        s1.text_view() == s2.text_view(),
    ensures
        next_count(s1.text_view(), q, t) == next_count(s2.text_view(), q, t),
{
}

/// A built table is sorted: what `is_sorted` checks holds of every well-formed table.
pub proof fn law_sorted(st: &SuffixTable)
    requires
        st.wf(),
    ensures
        crate::table::sorted_adjacent(st.text_view(), st.table_view()),
{
}

} // verus!
