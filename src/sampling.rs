use vstd::prelude::*;
use vstd::slice::{slice_subrange, slice_to_vec};
use rand::distributions::{Distribution, WeightedIndex};
use rand::thread_rng;
use crate::laws::{law_count_consistency, lemma_sum_counts, sum_prefix};
use crate::table::{next_count, vocab_size, SuffixTable};

verus! {

/// Why sampling stopped.
#[derive(Debug, Clone, Copy, PartialEq, Eq, Structural)]
pub enum SampleError {
    /// No token follows the current context anywhere in the text.
    EmptyDistribution,
}

/// The context that conditions the token at index `j` of `s`: the up to `n - 1` tokens
/// before it.
pub open spec fn context(s: Seq<u16>, j: int, n: int) -> Seq<u16> {
    s.subrange(if j - (n - 1) > 0 { j - (n - 1) } else { 0 }, j)
}

/// From index `from` on, every token of `s` follows its context somewhere in `text`.
pub open spec fn follows_text(text: Seq<u16>, s: Seq<u16>, from: int, n: int) -> bool {
    forall|j: int| from <= j < s.len() ==> #[trigger] next_count(text, context(s, j, n), s[j] as int) > 0
}

/// No token follows the context at the end of `s` anywhere in `text`.
pub open spec fn dead_end(text: Seq<u16>, s: Seq<u16>, n: int) -> bool {
    forall|t: int| 0 <= t < 65536 ==> #[trigger] next_count(text, context(s, s.len() as int, n), t) == 0
}

/// A successful draw of `k` tokens after `query`.
pub open spec fn is_sample(text: Seq<u16>, query: Seq<u16>, n: int, k: int, s: Seq<u16>) -> bool {
    &&& s.len() == query.len() + k
    &&& s.subrange(0, query.len() as int) == query
    &&& follows_text(text, s, query.len() as int, n)
}

/// A draw after `query` that reached a context with no successor before `k` tokens.
pub open spec fn is_stuck(text: Seq<u16>, query: Seq<u16>, n: int, k: int, s: Seq<u16>) -> bool {
    &&& query.len() <= s.len() < query.len() + k
    &&& s.subrange(0, query.len() as int) == query
    &&& follows_text(text, s, query.len() as int, n)
    &&& dead_end(text, s, n)
}

/// Relies on rand's `WeightedIndex::new`, which fails exactly when the weights are empty or
/// all zero, and on its `sample` with `thread_rng`, which returns an index whose weight is
/// positive.
#[verifier::external_body]
fn draw_weighted(weights: &Vec<usize>) -> (r: Option<usize>)
    requires
        sum_prefix(weights@, weights@.len() as int) <= usize::MAX,
    ensures
        r.is_none() <==> sum_prefix(weights@, weights@.len() as int) == 0,
        r matches Some(i) ==> i < weights@.len() && weights@[i as int] > 0,
{
    match WeightedIndex::new(weights) {
        Ok(dist) => Some(dist.sample(&mut thread_rng())),
        Err(_) => None,
    }
}

proof fn lemma_zero_sum(s: Seq<usize>, k: int)
    requires
        0 <= k <= s.len(),
    ensures
        sum_prefix(s, k) >= 0,
        sum_prefix(s, k) == 0 ==> forall|t: int| 0 <= t < k ==> s[t] == 0,
    decreases k,
{
    if k > 0 {
        lemma_zero_sum(s, k - 1);
    }
}

/// How many entries of `s[..k]` are positive, and how many are one.
pub open spec fn occurrence_counts(s: Seq<usize>, k: int) -> (nat, nat)
    decreases k,
{
    if k <= 0 {
        (0, 0)
    } else {
        let (g, e) = occurrence_counts(s, k - 1);
        (g + if s[k - 1] > 0 { 1nat } else { 0nat }, e + if s[k - 1] == 1 { 1nat } else { 0nat })
    }
}

/// The number of positive counts and the number of counts equal to one.
pub fn get_occurrence_counts(slice: &[usize]) -> (r: (usize, usize))
    ensures
        r.0 as nat == occurrence_counts(slice@, slice@.len() as int).0,
        r.1 as nat == occurrence_counts(slice@, slice@.len() as int).1,
{
    let mut gt_zero: usize = 0;
    let mut eq_one: usize = 0;
    let mut i: usize = 0;
    while i < slice.len()
        invariant
            i <= slice@.len(),
            gt_zero as nat == occurrence_counts(slice@, i as int).0,
            eq_one as nat == occurrence_counts(slice@, i as int).1,
            gt_zero <= i,
            eq_one <= i,
        decreases slice@.len() - i,
    {
        if slice[i] > 0 {
            gt_zero = gt_zero + 1;
        }
        if slice[i] == 1 {
            eq_one = eq_one + 1;
        }
        i = i + 1;
    }
    (gt_zero, eq_one)
}

impl SuffixTable {
    /// For each query, the counts of the tokens that follow it, as `count_next` gives them.
    pub fn batch_count_next(&self, queries: &[Vec<u16>], vocab: Option<u16>) -> (r: Vec<Vec<usize>>)
        requires
            self.wf(),
        ensures
            r@.len() == queries@.len(),
            forall|i: int| 0 <= i < r@.len() ==> (#[trigger] r@[i])@.len() == vocab_size(vocab),
            forall|i: int, t: int|
                0 <= i < r@.len() && 0 <= t < vocab_size(vocab) ==> #[trigger] r@[i]@[t] == next_count(
                    self.text_view(),
                    queries@[i]@,
                    t,
                ),
    {
        let mut out: Vec<Vec<usize>> = Vec::new();
        let mut i: usize = 0;
        while i < queries.len()
            invariant
                self.wf(),
                i <= queries@.len(),
                out@.len() == i,
                forall|j: int| 0 <= j < i ==> (#[trigger] out@[j])@.len() == vocab_size(vocab),
                forall|j: int, t: int|
                    0 <= j < i && 0 <= t < vocab_size(vocab) ==> #[trigger] out@[j]@[t] == next_count(
                        self.text_view(),
                        queries@[j]@,
                        t,
                    ),
            decreases queries@.len() - i,
        {
            let counts = self.count_next(queries[i].as_slice(), vocab);
            out.push(counts);
            i = i + 1;
        }
        out
    }

    /// Draws `k` tokens after `query`, each from the tokens that follow the last `n - 1`
    /// tokens drawn so far, in proportion to how often they follow them in the text.
    pub fn sample(&self, query: &[u16], n: usize, k: usize) -> (r: Result<Vec<u16>, SampleError>)
        requires
            self.wf(),
            n >= 1,
            query@.len() + k <= usize::MAX,
        ensures
            k == 0 ==> r is Ok,
            r matches Ok(s) ==> is_sample(self.text_view(), query@, n as int, k as int, s@),
            r matches Err(_) ==> exists|s: Seq<u16>| #[trigger]
                is_stuck(self.text_view(), query@, n as int, k as int, s),
    {
        let mut sequence: Vec<u16> = slice_to_vec(query);
        let mut i: usize = 0;
        while i < k
            invariant
                self.wf(),
                n >= 1,
                i <= k,
                query@.len() + k <= usize::MAX,
                sequence@.len() == query@.len() + i,
                sequence@.subrange(0, query@.len() as int) == query@,
                follows_text(self.text_view(), sequence@, query@.len() as int, n as int),
            decreases k - i,
        {
            let len: usize = sequence.len();
            let start: usize = if len > n - 1 { len - (n - 1) } else { 0 };
            let prev = slice_subrange(sequence.as_slice(), start, len);
            let counts = self.count_next(prev, None);
            proof {
                assert(prev@ == context(sequence@, len as int, n as int));
                lemma_sum_counts(counts@, self.text_view(), prev@, 65536);
                law_count_consistency(self, prev@, 65536);
                self.lemma_occurrences_bound(prev@);
            }
            match draw_weighted(&counts) {
                Some(t) => {
                    let ghost before = sequence@;
                    sequence.push(t as u16);
                    proof {
                        assert(sequence@.subrange(0, query@.len() as int) =~= before.subrange(0, query@.len() as int));
                        assert forall|j: int| query@.len() <= j < sequence@.len() implies #[trigger] next_count(
                            self.text_view(), context(sequence@, j, n as int), sequence@[j] as int) > 0 by {
                            assert(context(sequence@, j, n as int) =~= context(before, j, n as int) || j == len);
                            if j == len {
                                assert(context(sequence@, j, n as int) =~= prev@);
                            }
                        }
                    }
                }
                None => {
                    proof {
                        lemma_zero_sum(counts@, 65536);
                        assert forall|t: int| 0 <= t < 65536 implies #[trigger] next_count(
                            self.text_view(), context(sequence@, sequence@.len() as int, n as int), t) == 0 by {
                            assert(counts@[t] == next_count(self.text_view(), prev@, t));
                        }
                        assert(dead_end(self.text_view(), sequence@, n as int));
                        assert(is_stuck(self.text_view(), query@, n as int, k as int, sequence@));
                    }
                    return Err(SampleError::EmptyDistribution);
                }
            }
            i = i + 1;
        }
        Ok(sequence)
    }

    /// Draws `num_samples` sequences as `sample` does; stops at the first that cannot go on.
    pub fn batch_sample(&self, query: &[u16], n: usize, k: usize, num_samples: usize) -> (r: Result<
        Vec<Vec<u16>>,
        SampleError,
    >)
        requires
            self.wf(),
            n >= 1,
            query@.len() + k <= usize::MAX,
        ensures
            r matches Ok(v) ==> v@.len() == num_samples && forall|i: int|
                0 <= i < v@.len() ==> is_sample(self.text_view(), query@, n as int, k as int, (#[trigger] v@[i])@),
            r matches Err(_) ==> exists|s: Seq<u16>| #[trigger]
                is_stuck(self.text_view(), query@, n as int, k as int, s),
    {
        let mut out: Vec<Vec<u16>> = Vec::new();
        let mut i: usize = 0;
        while i < num_samples
            invariant
                self.wf(),
                n >= 1,
                query@.len() + k <= usize::MAX,
                i <= num_samples,
                out@.len() == i,
                forall|j: int|
                    0 <= j < i ==> is_sample(self.text_view(), query@, n as int, k as int, (#[trigger] out@[j])@),
            decreases num_samples - i,
        {
            match self.sample(query, n, k) {
                Ok(s) => {
                    out.push(s);
                },
                Err(e) => {
                    return Err(e);
                },
            }
            i = i + 1;
        }
        Ok(out)
    }
}

} // verus!
