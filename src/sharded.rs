use vstd::prelude::*;
use crate::table::{next_count, vocab_size, SuffixTable};

verus! {

/// The total length of the first `k` texts.
pub open spec fn total_len(texts: Seq<Seq<u16>>, k: int) -> int
    decreases k,
{
    if k <= 0 {
        0
    } else {
        total_len(texts, k - 1) + texts[k - 1].len()
    }
}

/// The count of token `t` after `q`, summed over the first `k` texts.
pub open spec fn shard_sum(texts: Seq<Seq<u16>>, q: Seq<u16>, t: int, k: int) -> int
    decreases k,
{
    if k <= 0 {
        0
    } else {
        shard_sum(texts, q, t, k - 1) + next_count(texts[k - 1], q, t)
    }
}

/// Suffix tables over the parts of a larger text, queried as one.
pub struct ShardedTable {
    shards: Vec<SuffixTable>,
}

proof fn lemma_shard_sum_bound(texts: Seq<Seq<u16>>, q: Seq<u16>, t: int, k: int)
    requires
        0 <= k <= texts.len(),
        forall|i: int| 0 <= i < k ==> next_count(#[trigger] texts[i], q, t) <= texts[i].len(),
    ensures
        0 <= shard_sum(texts, q, t, k) <= total_len(texts, k),
    decreases k,
{
    if k > 0 {
        lemma_shard_sum_bound(texts, q, t, k - 1);
    }
}

proof fn lemma_total_len_grows(texts: Seq<Seq<u16>>, j: int, k: int)
    requires
        0 <= j <= k <= texts.len(),
    ensures
        total_len(texts, j) <= total_len(texts, k),
    decreases k - j,
{
    if j < k {
        lemma_total_len_grows(texts, j, k - 1);
    }
}

impl ShardedTable {
    /// The shards, in order.
    pub closed spec fn shards_view(&self) -> Seq<SuffixTable> {
        self.shards@
    }

    /// The texts of the shards, in order.
    pub open spec fn texts(&self) -> Seq<Seq<u16>> {
        Seq::new(self.shards_view().len(), |i: int| self.shards_view()[i].text_view())
    }

    /// Every shard is a well-formed suffix table.
    pub open spec fn wf(&self) -> bool {
        forall|i: int| 0 <= i < self.shards_view().len() ==> (#[trigger] self.shards_view()[i]).wf()
    }

    pub fn new(shards: Vec<SuffixTable>) -> (r: Self)
        ensures
            r.shards_view() == shards@,
    {
        ShardedTable { shards }
    }

    /// For each token `t` below the vocabulary size, how many times `query` followed by `t`
    /// occurs in the shards together: the sum of the shards' own counts.
    pub fn count_next(&self, query: &[u16], vocab: Option<u16>) -> (r: Vec<usize>)
        requires
            self.wf(),
            total_len(self.texts(), self.texts().len() as int) <= usize::MAX,
        ensures
            r@.len() == vocab_size(vocab),
            forall|t: int|
                0 <= t < r@.len() ==> #[trigger] r@[t] == shard_sum(
                    self.texts(),
                    query@,
                    t,
                    self.texts().len() as int,
                ),
    {
        let size: usize = match vocab {
            Some(v) => v as usize,
            None => 65536,
        };
        let mut counts: Vec<usize> = Vec::new();
        let mut t: usize = 0;
        while t < size
            invariant
                t <= size,
                counts@.len() == t,
                forall|k: int| 0 <= k < t ==> counts@[k] == 0,
            decreases size - t,
        {
            counts.push(0);
            t = t + 1;
        }
        let ghost texts = self.texts();
        let m: usize = self.shards.len();
        let mut i: usize = 0;
        while i < m
            invariant
                self.wf(),
                m == self.shards@.len(),
                texts == self.texts(),
                total_len(texts, m as int) <= usize::MAX,
                i <= m,
                counts@.len() == size,
                size == vocab_size(vocab),
                forall|k: int| 0 <= k < size ==> #[trigger] counts@[k] == shard_sum(texts, query@, k, i as int),
            decreases m - i,
        {
            let shard = &self.shards[i];
            assert(self.shards_view()[i as int].wf());
            let c = shard.count_next(query, vocab);
            let mut t: usize = 0;
            while t < size
                invariant
                    self.wf(),
                    m == self.shards@.len(),
                    texts == self.texts(),
                    total_len(texts, m as int) <= usize::MAX,
                    i < m,
                    t <= size,
                    counts@.len() == size,
                    size == vocab_size(vocab),
                    c@.len() == size,
                    shard.wf(),
                    *shard == self.shards@[i as int],
                    forall|k: int| 0 <= k < size ==> #[trigger] c@[k] == next_count(texts[i as int], query@, k),
                    forall|k: int| 0 <= k < t ==> #[trigger] counts@[k] == shard_sum(texts, query@, k, i + 1),
                    forall|k: int| t <= k < size ==> #[trigger] counts@[k] == shard_sum(texts, query@, k, i as int),
                decreases size - t,
            {
                proof {
                    assert forall|j: int| 0 <= j < i + 1 implies next_count(#[trigger] texts[j], query@, t as int)
                        <= texts[j].len() by {
                        assert(self.shards_view()[j].wf());
                        self.shards_view()[j].lemma_occurrences_bound(query@.push(t as u16));
                    }
                    lemma_shard_sum_bound(texts, query@, t as int, i + 1);
                    lemma_total_len_grows(texts, i + 1, m as int);
                }
                let sum = counts[t] + c[t];
                counts.set(t, sum);
                t = t + 1;
            }
            i = i + 1;
        }
        counts
    }
}

} // verus!
