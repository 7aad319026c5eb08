use vstd::prelude::*;
use core::cmp::Ordering;
use rayon::slice::ParallelSliceMut;
use vstd::slice::{slice_subrange, slice_to_vec};
use crate::lex::{
    is_prefix, lemma_lex_antisym, lemma_lex_refl, lemma_lex_trans, lemma_prefix_between,
    lemma_prefix_le, lex_le, prefix_at, suffix_le,
};

verus! {

/// The suffix of `text` that starts at position `p`.
pub open spec fn suf(text: Seq<u16>, p: int) -> Seq<u16> {
    text.subrange(p, text.len() as int)
}

/// `table` holds every position of a text of length `n` exactly once.
pub open spec fn is_permutation(table: Seq<u64>, n: nat) -> bool {
    &&& table.len() == n
    &&& forall|i: int| 0 <= i < table.len() ==> (table[i] as int) < n
    &&& table.no_duplicates()
    &&& forall|p: u64| (p as int) < n ==> #[trigger] table.contains(p)
}

/// Neighbouring entries of `table` name suffixes of `text` in lexicographic order.
pub open spec fn sorted_adjacent(text: Seq<u16>, table: Seq<u64>) -> bool {
    forall|i: int|
        0 <= i < table.len() - 1 ==> lex_le(
            #[trigger] suf(text, table[i] as int),
            suf(text, table[i + 1] as int),
        )
}

/// Every entry of `table` is a position in `text` or its end.
pub open spec fn entries_in_text(text: Seq<u16>, table: Seq<u64>) -> bool {
    forall|i: int| 0 <= i < table.len() ==> (table[i] as int) <= text.len()
}

/// `table` is the suffix array of `text`.
pub open spec fn valid_table(text: Seq<u16>, table: Seq<u64>) -> bool {
    text.len() <= usize::MAX && is_permutation(table, text.len()) && sorted_adjacent(text, table)
}

/// The positions at which `q` occurs in `text`.
pub open spec fn occurrences(text: Seq<u16>, q: Seq<u16>) -> Set<u64> {
    Set::new(|p: u64| (p as int) < text.len() && is_prefix(q, suf(text, p as int)))
}

/// The number of token values that `count_next` reports on: the given vocabulary size, or
/// every 16-bit token.
pub open spec fn vocab_size(vocab: Option<u16>) -> int {
    match vocab {
        Some(v) => v as int,
        None => 65536,
    }
}

/// What `count_next` reports for token `t` after `q`: the number of positions at which
/// `q` followed by `t` occurs.
pub open spec fn next_count(text: Seq<u16>, q: Seq<u16>, t: int) -> nat {
    occurrences(text, q.push(t as u16)).len()
}

/// A sorted table of the suffixes of a token text, answering n-gram queries.
pub struct SuffixTable {
    text: Vec<u16>,
    table: Vec<u64>,
}

/// The order of the suffixes of `text` at positions `a` and `b`.
pub fn suffix_order(text: &[u16], a: u64, b: u64) -> (r: Ordering)
    requires
        (a as int) <= text@.len(),
        (b as int) <= text@.len(),
    ensures
        (r is Less) <==> (lex_le(suf(text@, a as int), suf(text@, b as int)) && !lex_le(
            suf(text@, b as int),
            suf(text@, a as int),
        )),
        (r is Equal) <==> (lex_le(suf(text@, a as int), suf(text@, b as int)) && lex_le(
            suf(text@, b as int),
            suf(text@, a as int),
        )),
        (r is Greater) <==> !lex_le(suf(text@, a as int), suf(text@, b as int)),
{
    let n: usize = text.len();
    let i: usize = a as usize;
    let j: usize = b as usize;
    let le = suffix_le(text, i, text, j);
    let ge = suffix_le(text, j, text, i);
    if le && ge {
        Ordering::Equal
    } else if le {
        Ordering::Less
    } else {
        Ordering::Greater
    }
}

/// Relies on rayon's `par_sort_unstable_by`, which rearranges the slice so that it is
/// sorted by the comparator, here the total order of `suffix_order`.
#[verifier::external_body]
fn sort_suffixes(text: &[u16], table: &mut Vec<u64>)
    requires
        is_permutation(old(table)@, text@.len()),
    ensures
        is_permutation(final(table)@, text@.len()),
        sorted_adjacent(text@, final(table)@),
{
    table.par_sort_unstable_by(|x, y| suffix_order(text, *x, *y));
}

proof fn lemma_sorted_pair(text: Seq<u16>, table: Seq<u64>, i: int, j: int)
    requires
        sorted_adjacent(text, table),
        0 <= i <= j < table.len(),
    ensures
        lex_le(suf(text, table[i] as int), suf(text, table[j] as int)),
    decreases j - i,
{
    if i == j {
        lemma_lex_refl(suf(text, table[i] as int));
    } else {
        lemma_sorted_pair(text, table, i, j - 1);
        assert(lex_le(suf(text, table[j - 1] as int), suf(text, table[j - 1 + 1] as int)));
        lemma_lex_trans(
            suf(text, table[i] as int),
            suf(text, table[j - 1] as int),
            suf(text, table[j] as int),
        );
    }
}

proof fn lemma_prefix_push(q: Seq<u16>, t: u16, x: Seq<u16>)
    requires
        is_prefix(q.push(t), x),
    ensures
        is_prefix(q, x),
        x[q.len() as int] == t,
{
    assert(x.subrange(0, q.len() as int) =~= x.subrange(0, q.len() + 1 as int).subrange(0, q.len() as int));
    assert(q.push(t).subrange(0, q.len() as int) =~= q);
    assert(x.subrange(0, q.len() + 1 as int)[q.len() as int] == q.push(t)[q.len() as int]);
}

proof fn lemma_prefix_extend(q: Seq<u16>, x: Seq<u16>)
    requires
        is_prefix(q, x),
        x.len() > q.len(),
    ensures
        is_prefix(q.push(x[q.len() as int]), x),
{
    assert(x.subrange(0, q.len() + 1 as int) =~= q.push(x[q.len() as int]));
}

proof fn lemma_prefix_self(q: Seq<u16>)
    ensures
        is_prefix(q, q),
        q.subrange(0, q.len() as int) == q,
{
    assert(q.subrange(0, q.len() as int) =~= q);
}

impl SuffixTable {
    /// The tokens of the text.
    pub closed spec fn text_view(&self) -> Seq<u16> {
        self.text@
    }

    /// The suffix table: positions of the text in suffix order.
    pub closed spec fn table_view(&self) -> Seq<u64> {
        self.table@
    }

    /// The table is the suffix array of the text.
    pub open spec fn wf(&self) -> bool {
        valid_table(self.text_view(), self.table_view())
    }

    /// The suffix at rank `i`.
    pub open spec fn suffix_view(&self, i: int) -> Seq<u16> {
        suf(self.text_view(), self.table_view()[i] as int)
    }

    /// Builds the suffix table of `src`, sorting its positions in parallel. Progress
    /// reporting (`verbose`) is left to callers.
    pub fn new(src: Vec<u16>, verbose: bool) -> (r: Self)
        ensures
            r.wf(),
            r.text_view() == src@,
    {
        let text = src;
        let n: usize = text.len();
        let mut table: Vec<u64> = Vec::new();
        let mut i: usize = 0;
        while i < n
            invariant
                n == text@.len(),
                i <= n,
                table@.len() == i,
                forall|k: int| 0 <= k < i ==> table@[k] as int == k,
            decreases n - i,
        {
            table.push(i as u64);
            i = i + 1;
        }
        assert forall|p: u64| (p as int) < n implies #[trigger] table@.contains(p) by {
            assert(table@[p as int] == p);
        }
        sort_suffixes(text.as_slice(), &mut table);
        let _ = verbose;
        SuffixTable { text, table }
    }

    /// Wraps a text and a table as they are.
    pub fn from_parts(text: Vec<u16>, table: Vec<u64>) -> (r: Self)
        ensures
            r.text_view() == text@,
            r.table_view() == table@,
    {
        SuffixTable { text, table }
    }

    /// Hands back the text and the table.
    pub fn into_parts(self) -> (r: (Vec<u16>, Vec<u64>))
        ensures
            r.0@ == self.text_view(),
            r.1@ == self.table_view(),
    {
        (self.text, self.table)
    }

    /// The number of suffixes in the table.
    pub fn len(&self) -> (r: usize)
        ensures
            r == self.table_view().len(),
    {
        self.table.len()
    }

    /// Whether the table holds no suffix.
    pub fn is_empty(&self) -> (r: bool)
        ensures
            r == (self.table_view().len() == 0),
    {
        self.table.len() == 0
    }

    /// The suffix at rank `i`.
    pub fn suffix(&self, i: usize) -> (r: &[u16])
        requires
            i < self.table_view().len(),
            entries_in_text(self.text_view(), self.table_view()),
        ensures
            r@ == self.suffix_view(i as int),
    {
        slice_subrange(self.text.as_slice(), self.table[i] as usize, self.text.len())
    }

    /// Whether neighbouring entries of the table are in suffix order.
    pub fn is_sorted(&self) -> (r: bool)
        requires
            entries_in_text(self.text_view(), self.table_view()),
        ensures
            r == sorted_adjacent(self.text_view(), self.table_view()),
    {
        let n: usize = self.table.len();
        let tl: usize = self.text.len();
        if n == 0 {
            return true;
        }
        let mut i: usize = 0;
        while i + 1 < n
            invariant
                n == self.table@.len(),
                tl == self.text@.len(),
                i + 1 <= n,
                entries_in_text(self.text@, self.table@),
                forall|k: int| 0 <= k < i ==> lex_le(
                    #[trigger] suf(self.text@, self.table@[k] as int),
                    suf(self.text@, self.table@[k + 1] as int),
                ),
            decreases n - i,
        {
            if !suffix_le(
                self.text.as_slice(),
                self.table[i] as usize,
                self.text.as_slice(),
                self.table[i + 1] as usize,
            ) {
                assert(!lex_le(
                    suf(self.text@, self.table@[i as int] as int),
                    suf(self.text@, self.table@[i + 1] as int),
                ));
                return false;
            }
            i = i + 1;
        }
        true
    }


    /// The text position of the suffix at rank `i`.
    fn pos(&self, i: usize) -> (p: usize)
        requires
            self.wf(),
            i < self.table_view().len(),
        ensures
            p as int == self.table_view()[i as int] as int,
            p < self.text_view().len(),
    {
        let n: usize = self.text.len();
        let x: u64 = self.table[i];
        assert((x as int) < n);
        x as usize
    }

    /// Within ranks `[a, b)`, exactly the ranks in `[lo, hi)` hold suffixes that start with `q`.
    pub open spec fn is_block(&self, q: Seq<u16>, lo: int, hi: int, a: int, b: int) -> bool {
        forall|k: int| a <= k < b ==> (is_prefix(q, #[trigger] self.suffix_view(k)) <==> lo <= k < hi)
    }

    /// `q` sorts outside the suffixes of ranks `[a, b)` without starting the first of them:
    /// below the first without being its prefix, or above the last.
    pub open spec fn sorts_outside(&self, q: Seq<u16>, a: int, b: int) -> bool {
        a < b && ((lex_le(q, self.suffix_view(a)) && !is_prefix(q, self.suffix_view(a)))
            || !lex_le(q, self.suffix_view(b - 1)))
    }

    /// The first rank in `[a, b)` whose suffix is not below `q`, or `b`.
    fn first_not_below(&self, q: &[u16], a: usize, b: usize) -> (r: usize)
        requires
            self.wf(),
            a <= b <= self.table_view().len(),
        ensures
            a <= r <= b,
            forall|k: int| a <= k < r ==> !lex_le(q@, #[trigger] self.suffix_view(k)),
            forall|k: int| r <= k < b ==> lex_le(q@, #[trigger] self.suffix_view(k)),
    {
        proof {
            lemma_prefix_self(q@);
        }
        let mut left: usize = a;
        let mut right: usize = b;
        while left < right
            invariant
                self.wf(),
                b <= self.table@.len(),
                a <= left <= right <= b,
                q@.subrange(0, q@.len() as int) == q@,
                forall|k: int| a <= k < left ==> !lex_le(q@, #[trigger] self.suffix_view(k)),
                forall|k: int| right <= k < b ==> lex_le(q@, #[trigger] self.suffix_view(k)),
            decreases right - left,
        {
            let mid: usize = left + (right - left) / 2;
            if suffix_le(q, 0, self.text.as_slice(), self.pos(mid)) {
                assert forall|k: int| mid <= k < b implies lex_le(q@, #[trigger] self.suffix_view(k)) by {
                    lemma_sorted_pair(self.text@, self.table@, mid as int, k);
                    lemma_lex_trans(q@, self.suffix_view(mid as int), self.suffix_view(k));
                }
                right = mid;
            } else {
                assert forall|k: int| a <= k < mid + 1 implies !lex_le(q@, #[trigger] self.suffix_view(k)) by {
                    if k < mid && lex_le(q@, self.suffix_view(k)) {
                        lemma_sorted_pair(self.text@, self.table@, k, mid as int);
                        lemma_lex_trans(q@, self.suffix_view(k), self.suffix_view(mid as int));
                    }
                }
                left = mid + 1;
            }
        }
        left
    }

    /// The first rank in `[a, b)` whose suffix does not start with `q`, or `b`, where no
    /// suffix of the range is below `q`.
    fn first_not_prefixed(&self, q: &[u16], a: usize, b: usize) -> (r: usize)
        requires
            self.wf(),
            a <= b <= self.table_view().len(),
            forall|k: int| a <= k < b ==> lex_le(q@, #[trigger] self.suffix_view(k)),
        ensures
            a <= r <= b,
            forall|k: int| a <= k < r ==> is_prefix(q@, #[trigger] self.suffix_view(k)),
            forall|k: int| r <= k < b ==> !is_prefix(q@, #[trigger] self.suffix_view(k)),
    {
        proof {
            lemma_prefix_self(q@);
        }
        let mut left: usize = a;
        let mut right: usize = b;
        while left < right
            invariant
                self.wf(),
                b <= self.table@.len(),
                a <= left <= right <= b,
                is_prefix(q@, q@),
                forall|k: int| a <= k < b ==> lex_le(q@, #[trigger] self.suffix_view(k)),
                forall|k: int| a <= k < left ==> is_prefix(q@, #[trigger] self.suffix_view(k)),
                forall|k: int| right <= k < b ==> !is_prefix(q@, #[trigger] self.suffix_view(k)),
            decreases right - left,
        {
            let mid: usize = left + (right - left) / 2;
            if prefix_at(q, self.text.as_slice(), self.pos(mid)) {
                assert forall|k: int| a <= k < mid + 1 implies is_prefix(q@, #[trigger] self.suffix_view(k)) by {
                    if k < mid {
                        lemma_sorted_pair(self.text@, self.table@, k, mid as int);
                        lemma_prefix_between(q@, q@, self.suffix_view(k), self.suffix_view(mid as int));
                    }
                }
                left = mid + 1;
            } else {
                assert forall|k: int| mid <= k < b implies !is_prefix(q@, #[trigger] self.suffix_view(k)) by {
                    if mid < k && is_prefix(q@, self.suffix_view(k)) {
                        lemma_sorted_pair(self.text@, self.table@, mid as int, k);
                        lemma_prefix_between(q@, q@, self.suffix_view(mid as int), self.suffix_view(k));
                    }
                }
                right = mid;
            }
        }
        left
    }

    /// The ranks in `[a, b)` whose suffixes start with `q`, by two binary searches.
    fn search(&self, q: &[u16], a: usize, b: usize) -> (r: (usize, usize))
        requires
            self.wf(),
            a <= b <= self.table_view().len(),
        ensures
            a <= r.0 <= r.1 <= b,
            self.is_block(q@, r.0 as int, r.1 as int, a as int, b as int),
            forall|k: int| a <= k < r.0 ==> !lex_le(q@, #[trigger] self.suffix_view(k)),
            forall|k: int| r.0 <= k < b ==> lex_le(q@, #[trigger] self.suffix_view(k)),
    {
        let start = self.first_not_below(q, a, b);
        let end = self.first_not_prefixed(q, start, b);
        assert forall|k: int| a <= k < start implies !is_prefix(q@, #[trigger] self.suffix_view(k)) by {
            if is_prefix(q@, self.suffix_view(k)) {
                lemma_prefix_le(q@, self.suffix_view(k));
            }
        }
        (start, end)
    }

    /// Whether `q` sorts outside the suffixes of ranks `[a, b)` without starting the first
    /// of them: then no suffix of the range starts with `q`.
    fn outside_range(&self, q: &[u16], a: usize, b: usize) -> (r: bool)
        requires
            self.wf(),
            a < b <= self.table_view().len(),
        ensures
            r == self.sorts_outside(q@, a as int, b as int),
            r ==> forall|k: int| a <= k < b ==> !is_prefix(q@, #[trigger] self.suffix_view(k)),
    {
        proof {
            lemma_prefix_self(q@);
        }
        let text = self.text.as_slice();
        let below = suffix_le(q, 0, text, self.pos(a)) && !prefix_at(
            q,
            text,
            self.pos(a),
        );
        let above = !suffix_le(q, 0, text, self.pos(b - 1));
        assert forall|k: int| (below || above) && a <= k < b implies !is_prefix(q@, #[trigger] self.suffix_view(k)) by {
            if is_prefix(q@, self.suffix_view(k)) {
                lemma_prefix_le(q@, self.suffix_view(k));
                lemma_sorted_pair(self.text@, self.table@, a as int, k);
                lemma_sorted_pair(self.text@, self.table@, k, b - 1);
                if below {
                    lemma_prefix_between(q@, q@, self.suffix_view(a as int), self.suffix_view(k));
                } else {
                    lemma_lex_trans(q@, self.suffix_view(k), self.suffix_view(b - 1));
                }
            }
        }
        below || above
    }

    /// The ranks in `[a, b)` whose suffixes start with `q`, found by two binary searches;
    /// the empty signal `(0, 0)` when the text, `q` or the range is empty, or when `q` sorts
    /// outside the range.
    fn range_positions(&self, q: &[u16], a: usize, b: usize) -> (r: (usize, usize))
        requires
            self.wf(),
            a <= b <= self.table_view().len(),
        ensures
            r.0 <= r.1,
            r.0 < r.1 ==> a <= r.0,
            r.1 <= b,
            (self.text_view().len() == 0 || q@.len() == 0 || a == b || self.sorts_outside(
                q@,
                a as int,
                b as int,
            )) ==> r == (0usize, 0usize),
            !(self.text_view().len() == 0 || q@.len() == 0 || a == b || self.sorts_outside(
                q@,
                a as int,
                b as int,
            )) ==> {
                &&& a <= r.0
                &&& forall|k: int| a <= k < r.0 ==> !lex_le(q@, #[trigger] self.suffix_view(k))
                &&& forall|k: int| r.0 <= k < b ==> lex_le(q@, #[trigger] self.suffix_view(k))
            },
            q@.len() > 0 ==> self.is_block(q@, r.0 as int, r.1 as int, a as int, b as int),
    {
        if self.text.len() == 0 || q.len() == 0 || a == b || self.outside_range(q, a, b) {
            return (0, 0);
        }
        self.search(q, a, b)
    }

    /// The ranks whose suffixes start with `q`. The whole table when the text or `q` is
    /// empty, or when `q` sorts outside all suffixes without starting the first one.
    fn boundaries(&self, q: &[u16]) -> (r: (usize, usize))
        requires
            self.wf(),
        ensures
            r.0 <= r.1 <= self.table_view().len(),
            (self.table_view().len() == 0 || q@.len() == 0 || self.sorts_outside(
                q@,
                0,
                self.table_view().len() as int,
            )) ==> r == (0usize, self.table_view().len() as usize),
            !(self.table_view().len() == 0 || q@.len() == 0 || self.sorts_outside(
                q@,
                0,
                self.table_view().len() as int,
            )) ==> {
                &&& self.is_block(q@, r.0 as int, r.1 as int, 0, self.table_view().len() as int)
                &&& forall|k: int| 0 <= k < r.0 ==> !lex_le(q@, #[trigger] self.suffix_view(k))
                &&& forall|k: int|
                    r.0 <= k < self.table_view().len() ==> lex_le(q@, #[trigger] self.suffix_view(k))
            },
            self.is_block(q@, r.0 as int, r.1 as int, 0, self.table_view().len() as int) || (
            r == (0usize, self.table_view().len() as usize) && forall|k: int|
                0 <= k < self.table_view().len() ==> !is_prefix(
                q@,
                #[trigger] self.suffix_view(k),
            )),
    {
        let n: usize = self.table.len();
        if n == 0 || q.len() == 0 {
            assert forall|k: int| 0 <= k < n implies is_prefix(q@, #[trigger] self.suffix_view(k)) by {
                assert(self.suffix_view(k).subrange(0, 0) =~= q@);
            }
            return (0, n);
        }
        if self.outside_range(q, 0, n) {
            return (0, n);
        }
        self.search(q, 0, n)
    }

    /// How many ranks in `[a, b)` hold a suffix that starts with `q`.
    pub open spec fn prefixed_in(&self, q: Seq<u16>, a: int, b: int) -> nat
        decreases b - a,
    {
        if b <= a {
            0
        } else {
            self.prefixed_in(q, a, b - 1) + if is_prefix(q, self.suffix_view(b - 1)) {
                1nat
            } else {
                0nat
            }
        }
    }

    proof fn lemma_prefixed_block(&self, q: Seq<u16>, lo: int, hi: int, a: int, b: int)
        requires
            self.is_block(q, lo, hi, a, b),
            a <= b,
            lo <= hi,
        ensures
            self.prefixed_in(q, a, b) == (if hi <= a || b <= lo || hi <= lo {
                0
            } else {
                (if hi < b { hi } else { b }) - (if lo > a { lo } else { a })
            }),
        decreases b - a,
    {
        if b > a {
            assert(self.is_block(q, lo, hi, a, b - 1));
            self.lemma_prefixed_block(q, lo, hi, a, b - 1);
            let _ = is_prefix(q, self.suffix_view(b - 1));
        }
    }

    proof fn lemma_prefixed_split(&self, q: Seq<u16>, a: int, m: int, b: int)
        requires
            a <= m <= b,
        ensures
            self.prefixed_in(q, a, b) == self.prefixed_in(q, a, m) + self.prefixed_in(q, m, b),
        decreases b - m,
    {
        if b > m {
            self.lemma_prefixed_split(q, a, m, b - 1);
        }
    }

    proof fn lemma_prefixed_witness(&self, q: Seq<u16>, a: int, b: int) -> (k: int)
        requires
            self.prefixed_in(q, a, b) > 0,
        ensures
            a <= k < b,
            is_prefix(q, self.suffix_view(k)),
        decreases b - a,
    {
        if is_prefix(q, self.suffix_view(b - 1)) {
            b - 1
        } else {
            self.lemma_prefixed_witness(q, a, b - 1)
        }
    }

    proof fn lemma_prefixed_none(&self, q: Seq<u16>, a: int, b: int)
        requires
            forall|k: int| a <= k < b ==> !is_prefix(q, #[trigger] self.suffix_view(k)),
        ensures
            self.prefixed_in(q, a, b) == 0,
    {
        if self.prefixed_in(q, a, b) > 0 {
            let k = self.lemma_prefixed_witness(q, a, b);
        }
    }

    /// The table entries of ranks below `k` whose suffixes start with `q`.
    spec fn prefixed_entries(&self, q: Seq<u16>, k: int) -> Set<u64> {
        Set::new(
            |x: u64|
                exists|i: int|
                    0 <= i < k && self.table_view()[i] == x && is_prefix(
                        q,
                        #[trigger] self.suffix_view(i),
                    ),
        )
    }

    proof fn lemma_prefixed_entries(&self, q: Seq<u16>, k: int)
        requires
            self.wf(),
            0 <= k <= self.table_view().len(),
        ensures
            self.prefixed_entries(q, k).finite(),
            self.prefixed_entries(q, k).len() == self.prefixed_in(q, 0, k),
        decreases k,
    {
        if k == 0 {
            assert(self.prefixed_entries(q, 0) =~= Set::empty());
        } else {
            self.lemma_prefixed_entries(q, k - 1);
            let acc = self.prefixed_entries(q, k - 1);
            let x = self.table_view()[k - 1];
            let next = if is_prefix(q, self.suffix_view(k - 1)) { acc.insert(x) } else { acc };
            assert forall|y: u64| next.contains(y) <==> self.prefixed_entries(q, k).contains(y) by {
                if y == x && is_prefix(q, self.suffix_view(k - 1)) {
                    assert(self.table_view()[k - 1] == y);
                }
                if self.prefixed_entries(q, k).contains(y) {
                    let i = choose|i: int| 0 <= i < k && self.table_view()[i] == y && is_prefix(q, #[trigger] self.suffix_view(i));
                    if i < k - 1 {
                        assert(acc.contains(y));
                    }
                }
                if acc.contains(y) {
                    let i = choose|i: int| 0 <= i < k - 1 && self.table_view()[i] == y && is_prefix(q, #[trigger] self.suffix_view(i));
                    assert(self.prefixed_entries(q, k).contains(y));
                }
            }
            assert(next =~= self.prefixed_entries(q, k));
            if is_prefix(q, self.suffix_view(k - 1)) {
                assert(!acc.contains(x)) by {
                    if acc.contains(x) {
                        let i = choose|i: int| 0 <= i < k - 1 && self.table_view()[i] == x && is_prefix(q, #[trigger] self.suffix_view(i));
                        assert(self.table_view().no_duplicates());
                    }
                }
            }
        }
    }

    /// Over the whole table, the count of prefixed ranks is the number of occurrences.
    proof fn lemma_prefixed_occurrences(&self, q: Seq<u16>)
        requires
            self.wf(),
        ensures
            self.prefixed_in(q, 0, self.table_view().len() as int) == occurrences(
                self.text_view(),
                q,
            ).len(),
            occurrences(self.text_view(), q).finite(),
    {
        let n = self.table_view().len() as int;
        self.lemma_prefixed_entries(q, n);
        let acc = self.prefixed_entries(q, n);
        assert forall|y: u64| acc.contains(y) <==> occurrences(self.text_view(), q).contains(y) by {
            if occurrences(self.text_view(), q).contains(y) {
                assert(self.table_view().contains(y));
                let i = choose|i: int| 0 <= i < n && self.table_view()[i] == y;
                assert(is_prefix(q, self.suffix_view(i)));
            }
        }
        assert(acc =~= occurrences(self.text_view(), q));
    }

    /// The table entries of an exact block are the occurrences of `q`, each once.
    proof fn lemma_block_occurrences(&self, q: Seq<u16>, s: int, e: int)
        requires
            self.wf(),
            0 <= s <= e <= self.table_view().len(),
            self.is_block(q, s, e, 0, self.table_view().len() as int),
        ensures
            self.table_view().subrange(s, e).to_set() == occurrences(self.text_view(), q),
            self.table_view().subrange(s, e).no_duplicates(),
            occurrences(self.text_view(), q).len() == e - s,
    {
        let n = self.table_view().len() as int;
        let sub = self.table_view().subrange(s, e);
        assert forall|x: u64| sub.to_set().contains(x) <==> occurrences(self.text_view(), q).contains(x) by {
            if sub.to_set().contains(x) {
                assert(sub.contains(x));
                let i = choose|i: int| 0 <= i < sub.len() && sub[i] == x;
                assert(self.table_view()[s + i] == x);
                assert(is_prefix(q, self.suffix_view(s + i)));
            }
            if occurrences(self.text_view(), q).contains(x) {
                assert(self.table_view().contains(x));
                let k = choose|k: int| 0 <= k < n && self.table_view()[k] == x;
                assert(is_prefix(q, self.suffix_view(k)));
                assert(sub[k - s] == x);
                assert(sub.contains(x));
            }
        }
        assert(sub.to_set() =~= occurrences(self.text_view(), q));
        assert(sub.no_duplicates()) by {
            assert forall|i: int, j: int| 0 <= i < sub.len() && 0 <= j < sub.len() && i != j implies sub[i] != sub[j] by {
                assert(sub[i] == self.table_view()[s + i] && sub[j] == self.table_view()[s + j]);
            }
        }
        sub.unique_seq_to_set();
    }

    /// Whether `query` occurs in the text; an empty query never does.
    pub fn contains(&self, query: &[u16]) -> (r: bool)
        requires
            self.wf(),
        ensures
            r == (query@.len() > 0 && occurrences(self.text_view(), query@).len() > 0),
    {
        if query.len() == 0 {
            return false;
        }
        let (s, e) = self.search(query, 0, self.table.len());
        proof {
            self.lemma_block_occurrences(query@, s as int, e as int);
        }
        s < e
    }

    /// The positions at which `query` starts in the text, each once, in suffix order.
    /// Empty when `query` is empty.
    pub fn positions(&self, query: &[u16]) -> (r: &[u64])
        requires
            self.wf(),
        ensures
            r@.no_duplicates(),
            query@.len() == 0 ==> r@.len() == 0,
            query@.len() > 0 ==> r@.to_set() == occurrences(self.text_view(), query@),
            query@.len() > 0 ==> r@.len() == occurrences(self.text_view(), query@).len(),
            exists|lo: int, hi: int|
                0 <= lo <= hi <= self.table_view().len() && r@ == #[trigger] self.table_view().subrange(
                    lo,
                    hi,
                ),
    {
        let (s, e) = self.range_positions(query, 0, self.table.len());
        if query.len() > 0 {
            proof {
                self.lemma_block_occurrences(query@, s as int, e as int);
            }
        }
        let r = slice_subrange(self.table.as_slice(), s, e);
        assert(r@ == self.table_view().subrange(s as int, e as int));
        r
    }

    /// `after` holds, for each token `t` that follows `q` in ranks `[a, b)`, the number of
    /// those ranks whose suffixes start with `q` and `t`; elsewhere it holds `before`.
    #[verifier::opaque]
    pub open spec fn frame_counts(
        &self,
        q: Seq<u16>,
        a: int,
        b: int,
        before: Seq<usize>,
        after: Seq<usize>,
    ) -> bool {
        &&& after.len() == before.len()
        &&& forall|t: int|
            0 <= t < before.len() ==> #[trigger] after[t] == if self.prefixed_in(q.push(t as u16), a, b)
                > 0 {
                self.prefixed_in(q.push(t as u16), a, b) as int
            } else {
                before[t] as int
            }
    }

    proof fn lemma_frame_empty(&self, q: Seq<u16>, a: int, b: int, c: Seq<usize>)
        requires
            forall|t: int| 0 <= t < c.len() ==> #[trigger] self.prefixed_in(q.push(t as u16), a, b) == 0,
        ensures
            self.frame_counts(q, a, b, c, c),
    {
        reveal(SuffixTable::frame_counts);
    }

    /// A frame whose pivot suffix is `q` itself holds that suffix alone.
    proof fn lemma_exact_pivot(&self, q: Seq<u16>, a: int, b: int, idx: int)
        requires
            self.wf(),
            0 <= a < b <= self.table_view().len(),
            idx == a + (b - a) / 2,
            forall|k: int| a <= k < b ==> is_prefix(q, #[trigger] self.suffix_view(k)),
            self.suffix_view(idx).len() == q.len(),
        ensures
            idx == a,
            b == a + 1,
            forall|t: int| #[trigger] self.prefixed_in(q.push(t as u16), a, b) == 0,
    {
        assert(is_prefix(q, self.suffix_view(idx)));
        assert(self.suffix_view(idx) =~= q);
        assert(is_prefix(q, self.suffix_view(a)));
        lemma_prefix_le(q, self.suffix_view(a));
        lemma_sorted_pair(self.text_view(), self.table_view(), a, idx);
        lemma_lex_antisym(self.suffix_view(a), self.suffix_view(idx));
        assert(self.table_view()[a] == self.table_view()[idx]);
        assert forall|t: int| #[trigger] self.prefixed_in(q.push(t as u16), a, b) == 0 by {
            assert(!is_prefix(q.push(t as u16), self.suffix_view(a)));
            assert(self.prefixed_in(q.push(t as u16), a, a) == 0);
        }
    }

    /// Counting the block `[s, e)` of token `t` and then both sides of it counts the frame.
    proof fn lemma_frame_combine(
        &self,
        q: Seq<u16>,
        t: u16,
        a: int,
        s: int,
        e: int,
        b: int,
        c0: Seq<usize>,
        c1: Seq<usize>,
        c2: Seq<usize>,
        c3: Seq<usize>,
    )
        requires
            self.wf(),
            0 <= a <= s < e <= b <= self.table_view().len(),
            c0.len() <= 65536,
            self.is_block(q.push(t), s, e, a, b),
            c1 == (if (t as int) < c0.len() { c0.update(t as int, (e - s) as usize) } else { c0 }),
            self.frame_counts(q, a, s, c1, c2),
            self.frame_counts(q, e, b, c2, c3),
        ensures
            self.frame_counts(q, a, b, c0, c3),
    {
        reveal(SuffixTable::frame_counts);
        assert forall|u: int| 0 <= u < c0.len() implies #[trigger] c3[u] == if self.prefixed_in(
            q.push(u as u16), a, b) > 0 {
            self.prefixed_in(q.push(u as u16), a, b) as int
        } else {
            c0[u] as int
        } by {
            self.lemma_frame_token(q, t, u, a, s, e, b);
            assert(c2[u] == if self.prefixed_in(q.push(u as u16), a, s) > 0 {
                self.prefixed_in(q.push(u as u16), a, s) as int
            } else {
                c1[u] as int
            });
            assert(c3[u] == if self.prefixed_in(q.push(u as u16), e, b) > 0 {
                self.prefixed_in(q.push(u as u16), e, b) as int
            } else {
                c2[u] as int
            });
        }
    }

    /// Within a frame of ranks whose suffixes all start with `q`, sets the count of each
    /// token that follows `q` there to the size of its block.
    #[verifier::spinoff_prover]
    #[verifier::rlimit(30)]
    fn count_frame(&self, qv: &mut Vec<u16>, a: usize, b: usize, counts: &mut Vec<usize>)
        requires
            self.wf(),
            a <= b <= self.table_view().len(),
            forall|k: int| a <= k < b ==> is_prefix(old(qv)@, #[trigger] self.suffix_view(k)),
            old(counts)@.len() <= 65536,
        ensures
            final(qv)@ == old(qv)@,
            final(counts)@.len() == old(counts)@.len(),
            self.frame_counts(old(qv)@, a as int, b as int, old(counts)@, final(counts)@),
        decreases b - a,
    {
        let ghost q = qv@;
        let ghost c0 = counts@;
        if a == b {
            proof {
                self.lemma_frame_empty(q, a as int, b as int, c0);
            }
            return;
        }
        let n: usize = self.text.len();
        let mut idx: usize = a + (b - a) / 2;
        if n - self.pos(idx) == qv.len() {
            proof {
                self.lemma_exact_pivot(q, a as int, b as int, idx as int);
            }
            idx = idx + (b - idx) / 2 + 1;
            if idx >= b {
                proof {
                    self.lemma_frame_empty(q, a as int, b as int, c0);
                }
                return;
            }
        }
        let p = self.pos(idx);
        assert(is_prefix(q, self.suffix_view(idx as int)));
        let t = self.text[p + qv.len()];
        proof {
            assert(self.suffix_view(idx as int)[q.len() as int] == t);
            lemma_prefix_extend(q, self.suffix_view(idx as int));
        }
        qv.push(t);
        let (s, e) = self.range_positions(qv.as_slice(), a, b);
        let ghost qt = qv@;
        qv.pop();
        proof {
            assert(qv@ =~= q);
            assert(qt == q.push(t));
            assert(is_prefix(qt, self.suffix_view(idx as int)));
        }
        if (t as usize) < counts.len() {
            counts.set(t as usize, e - s);
        }
        let ghost c1 = counts@;
        if a < s {
            self.count_frame(qv, a, s, counts);
        } else {
            proof {
                self.lemma_frame_empty(q, a as int, s as int, c1);
            }
        }
        let ghost c2 = counts@;
        if e < b {
            self.count_frame(qv, e, b, counts);
        } else {
            proof {
                self.lemma_frame_empty(q, e as int, b as int, c2);
            }
        }
        proof {
            self.lemma_frame_combine(q, t, a as int, s as int, e as int, b as int, c0, c1, c2, counts@);
        }
    }

    /// How the blocks of the tokens after `q` in a frame `[a, b)` relate to the block
    /// `[s, e)` of token `t`: that of `t` is all of it, any other lies on one side.
    proof fn lemma_frame_token(&self, q: Seq<u16>, t: u16, u: int, a: int, s: int, e: int, b: int)
        requires
            self.wf(),
            0 <= a <= s < e <= b <= self.table_view().len(),
            self.is_block(q.push(t), s, e, a, b),
            0 <= u < 65536,
        ensures
            u == t ==> self.prefixed_in(q.push(u as u16), a, b) == e - s
                && self.prefixed_in(q.push(u as u16), a, s) == 0
                && self.prefixed_in(q.push(u as u16), e, b) == 0,
            u != t ==> self.prefixed_in(q.push(u as u16), a, b) == self.prefixed_in(q.push(u as u16), a, s)
                + self.prefixed_in(q.push(u as u16), e, b),
            u != t ==> !(self.prefixed_in(q.push(u as u16), a, s) > 0 && self.prefixed_in(
                q.push(u as u16),
                e,
                b,
            ) > 0),
    {
        let qt = q.push(t);
        let qu = q.push(u as u16);
        self.lemma_prefixed_split(qu, a, s, b);
        self.lemma_prefixed_split(qu, s, e, b);
        self.lemma_prefixed_block(qt, s, e, a, b);
        self.lemma_prefixed_block(qt, s, e, a, s);
        self.lemma_prefixed_block(qt, s, e, e, b);
        if u != t as int {
            assert forall|k: int| s <= k < e implies !is_prefix(qu, #[trigger] self.suffix_view(k)) by {
                if is_prefix(qu, self.suffix_view(k)) {
                    lemma_prefix_push(q, u as u16, self.suffix_view(k));
                    lemma_prefix_push(q, t, self.suffix_view(k));
                }
            }
            self.lemma_prefixed_none(qu, s, e);
            if self.prefixed_in(qu, a, s) > 0 && self.prefixed_in(qu, e, b) > 0 {
                let k1 = self.lemma_prefixed_witness(qu, a, s);
                let k3 = self.lemma_prefixed_witness(qu, e, b);
                assert(is_prefix(qt, self.suffix_view(s)));
                lemma_sorted_pair(self.text_view(), self.table_view(), k1, s);
                lemma_sorted_pair(self.text_view(), self.table_view(), s, k3);
                lemma_prefix_between(qu, self.suffix_view(k1), self.suffix_view(s), self.suffix_view(k3));
                lemma_prefix_push(q, u as u16, self.suffix_view(s));
                lemma_prefix_push(q, t, self.suffix_view(s));
            }
        }
    }

    /// For each token `t` below the vocabulary size (`vocab + 1`, or 65536 by default), how
    /// many times `query` followed by `t` occurs in the text. An occurrence of `query` at
    /// the very end of the text counts for no token.
    pub fn count_next(&self, query: &[u16], vocab: Option<u16>) -> (r: Vec<usize>)
        requires
            self.wf(),
        ensures
            r@.len() == vocab_size(vocab),
            forall|t: int| 0 <= t < r@.len() ==> #[trigger] r@[t] == next_count(self.text_view(), query@, t),
    {
        let vocab_size: usize = match vocab {
            Some(v) => v as usize,
            None => 65536,
        };
        let mut counts: Vec<usize> = Vec::new();
        let mut i: usize = 0;
        while i < vocab_size
            invariant
                i <= vocab_size,
                counts@.len() == i,
                forall|k: int| 0 <= k < i ==> counts@[k] == 0,
            decreases vocab_size - i,
        {
            counts.push(0);
            i = i + 1;
        }
        let n: usize = self.table.len();
        let (lo, hi) = self.boundaries(query);
        let found = query.len() == 0 || (lo < hi && prefix_at(query, self.text.as_slice(), self.pos(lo)));
        if found {
            assert forall|k: int| lo <= k < hi implies is_prefix(query@, #[trigger] self.suffix_view(k)) by {
                if query@.len() == 0 {
                    assert(self.suffix_view(k).subrange(0, 0) =~= query@);
                } else {
                    assert(is_prefix(query@, self.suffix_view(lo as int)));
                }
            }
            let mut qv: Vec<u16> = slice_to_vec(query);
            let ghost c0 = counts@;
            self.count_frame(&mut qv, lo, hi, &mut counts);
            proof {
                reveal(SuffixTable::frame_counts);
                assert forall|t: int| 0 <= t < counts@.len() implies #[trigger] counts@[t] == next_count(self.text_view(), query@, t) by {
                    let qt = query@.push(t as u16);
                    self.lemma_prefixed_split(qt, 0, lo as int, n as int);
                    self.lemma_prefixed_split(qt, lo as int, hi as int, n as int);
                    assert forall|k: int| (0 <= k < lo || hi <= k < n) implies !is_prefix(qt, #[trigger] self.suffix_view(k)) by {
                        if is_prefix(qt, self.suffix_view(k)) {
                            lemma_prefix_push(query@, t as u16, self.suffix_view(k));
                        }
                    }
                    self.lemma_prefixed_none(qt, 0, lo as int);
                    self.lemma_prefixed_none(qt, hi as int, n as int);
                    self.lemma_prefixed_occurrences(qt);
                }
            }
        } else {
            proof {
                assert forall|k: int| 0 <= k < n implies !is_prefix(query@, #[trigger] self.suffix_view(k)) by {
                    if is_prefix(query@, self.suffix_view(k)) {
                        if self.is_block(query@, lo as int, hi as int, 0, n as int) {
                            assert(is_prefix(query@, self.suffix_view(lo as int)));
                        }
                    }
                }
                assert forall|t: int| 0 <= t < counts@.len() implies #[trigger] counts@[t] == next_count(self.text_view(), query@, t) by {
                    let qt = query@.push(t as u16);
                    assert forall|k: int| 0 <= k < n implies !is_prefix(qt, #[trigger] self.suffix_view(k)) by {
                        if is_prefix(qt, self.suffix_view(k)) {
                            lemma_prefix_push(query@, t as u16, self.suffix_view(k));
                        }
                    }
                    self.lemma_prefixed_none(qt, 0, n as int);
                    self.lemma_prefixed_occurrences(qt);
                }
            }
        }
        counts
    }

    proof fn lemma_prefixed_at_most(&self, q: Seq<u16>, a: int, b: int)
        requires
            a <= b,
        ensures
            self.prefixed_in(q, a, b) <= b - a,
        decreases b - a,
    {
        if b > a {
            self.lemma_prefixed_at_most(q, a, b - 1);
        }
    }

    /// The occurrences of any query are finitely many, at most one per position.
    pub proof fn lemma_occurrences_bound(&self, q: Seq<u16>)
        requires
            self.wf(),
        ensures
            occurrences(self.text_view(), q).finite(),
            occurrences(self.text_view(), q).len() <= self.text_view().len(),
    {
        self.lemma_prefixed_occurrences(q);
        self.lemma_prefixed_at_most(q, 0, self.table_view().len() as int);
    }

    /// `counts` gives, for each of the distinct n-grams `gs` in turn, its number of
    /// occurrences; `gs` holds every n-gram that occurs in the text.
    pub open spec fn lists_ngrams(&self, n: int, gs: Seq<Seq<u16>>, counts: Seq<usize>) -> bool {
        &&& counts.len() == gs.len()
        &&& forall|m: int|
            0 <= m < gs.len() ==> (#[trigger] gs[m]).len() == n && counts[m] == occurrences(
                self.text_view(),
                gs[m],
            ).len() && counts[m] > 0
        &&& forall|m1: int, m2: int| 0 <= m1 < m2 < gs.len() ==> gs[m1] != gs[m2]
        &&& forall|g: Seq<u16>|
            g.len() == n && #[trigger] occurrences(self.text_view(), g).len() > 0 ==> gs.contains(g)
    }

    /// A maximal run of ranks starting with `g` is the whole block of `g`.
    proof fn lemma_run_is_block(&self, g: Seq<u16>, i: int, j: int, run_of: Seq<int>, brk: Seq<int>)
        requires
            self.wf(),
            0 <= i < j <= self.table_view().len(),
            run_of.len() == i,
            brk.len() == i,
            forall|k: int| i <= k < j ==> is_prefix(g, #[trigger] self.suffix_view(k)),
            j < self.table_view().len() ==> !is_prefix(g, self.suffix_view(j)),
            forall|k: int|
                0 <= k < i && #[trigger] self.suffix_view(k).len() >= g.len() ==> k < brk[k] <= i && (brk[k]
                    == self.table_view().len() || !is_prefix(
                    self.suffix_view(k).subrange(0, g.len() as int),
                    self.suffix_view(brk[k]),
                )),
        ensures
            self.is_block(g, i, j, 0, self.table_view().len() as int),
    {
        let len = self.table_view().len() as int;
        assert forall|k: int| 0 <= k < len implies (is_prefix(g, #[trigger] self.suffix_view(k)) <==> i <= k < j) by {
            if is_prefix(g, self.suffix_view(k)) && !(i <= k < j) {
                if k >= j {
                    lemma_sorted_pair(self.text_view(), self.table_view(), i, j);
                    lemma_sorted_pair(self.text_view(), self.table_view(), j, k);
                    lemma_prefix_between(g, self.suffix_view(i), self.suffix_view(j), self.suffix_view(k));
                } else {
                    assert(self.suffix_view(k).subrange(0, g.len() as int) =~= g);
                    let b = brk[k];
                    assert(b < len);
                    lemma_sorted_pair(self.text_view(), self.table_view(), k, b);
                    lemma_sorted_pair(self.text_view(), self.table_view(), b, i);
                    lemma_prefix_between(g, self.suffix_view(k), self.suffix_view(b), self.suffix_view(i));
                }
            }
        }
    }

    /// The number of occurrences of each distinct n-gram of the text (`n` tokens), one
    /// entry per n-gram.
    pub fn ngram_counts(&self, n: usize) -> (r: Vec<usize>)
        requires
            self.wf(),
        ensures
            exists|gs: Seq<Seq<u16>>| #[trigger] self.lists_ngrams(n as int, gs, r@),
    {
        let len: usize = self.table.len();
        let text = self.text.as_slice();
        let mut out: Vec<usize> = Vec::new();
        let ghost mut gs: Seq<Seq<u16>> = Seq::empty();
        let ghost mut run_of: Seq<int> = Seq::empty();
        let ghost mut first: Seq<int> = Seq::empty();
        let ghost mut brk: Seq<int> = Seq::empty();
        let mut i: usize = 0;
        while i < len
            invariant
                self.wf(),
                len == self.table_view().len(),
                text@ == self.text_view(),
                i <= len,
                out@.len() == gs.len(),
                run_of.len() == i,
                brk.len() == i,
                forall|m: int|
                    0 <= m < gs.len() ==> (#[trigger] gs[m]).len() == n && out@[m] == occurrences(
                        self.text_view(),
                        gs[m],
                    ).len() && out@[m] > 0,
                first.len() == gs.len(),
                forall|m: int| 0 <= m < gs.len() ==> 0 <= #[trigger] first[m] < i && is_prefix(gs[m], self.suffix_view(first[m])),
                forall|m1: int, m2: int| 0 <= m1 < m2 < gs.len() ==> gs[m1] != gs[m2],
                forall|k: int|
                    0 <= k < i && #[trigger] self.suffix_view(k).len() >= n ==> 0 <= run_of[k] < gs.len()
                        && gs[run_of[k]] == self.suffix_view(k).subrange(0, n as int)
                        && k < brk[k] <= i && (brk[k] == len || !is_prefix(
                        self.suffix_view(k).subrange(0, n as int),
                        self.suffix_view(brk[k]),
                    )),
            decreases len - i,
        {
            let p = self.pos(i);
            if text.len() - p < n {
                proof {
                    run_of = run_of.push(0);
                    brk = brk.push(i + 1);
                }
                i = i + 1;
            } else {
                let gram = slice_subrange(text, p, p + n);
                let ghost g = gram@;
                proof {
                    assert(g =~= self.suffix_view(i as int).subrange(0, n as int));
                    assert(is_prefix(g, self.suffix_view(i as int)));
                }
                let mut j: usize = i + 1;
                while j < len && prefix_at(gram, text, self.pos(j))
                    invariant
                        self.wf(),
                        len == self.table_view().len(),
                        text@ == self.text_view(),
                        i < j <= len,
                        gram@ == g,
                        forall|k: int| i <= k < j ==> is_prefix(g, #[trigger] self.suffix_view(k)),
                    decreases len - j,
                {
                    j = j + 1;
                }
                proof {
                    self.lemma_run_is_block(g, i as int, j as int, run_of, brk);
                    self.lemma_block_occurrences(g, i as int, j as int);
                    let m = gs.len() as int;
                    let old_gs = gs;
                    assert forall|mm: int| 0 <= mm < m implies old_gs[mm] != g by {
                        if old_gs[mm] == g {
                            assert(is_prefix(g, self.suffix_view(first[mm])));
                        }
                    }
                    gs = gs.push(g);
                    first = first.push(i as int);
                    run_of = run_of + Seq::new((j - i) as nat, |x: int| m);
                    brk = brk + Seq::new((j - i) as nat, |x: int| j as int);
                    assert forall|k: int| i <= k < j implies self.suffix_view(k).subrange(0, n as int) == g by {
                        assert(is_prefix(g, self.suffix_view(k)));
                    }
                }
                out.push(j - i);
                i = j;
            }
        }
        proof {
            assert forall|g: Seq<u16>| g.len() == n && occurrences(self.text_view(), g).len() > 0 implies gs.contains(g) by {
                self.lemma_occurrences_bound(g);
                let p = occurrences(self.text_view(), g).choose();
                assert(occurrences(self.text_view(), g).contains(p));
                assert(self.table_view().contains(p));
                let k = choose|k: int| 0 <= k < len && self.table_view()[k] == p;
                assert(is_prefix(g, self.suffix_view(k)));
                assert(self.suffix_view(k).subrange(0, n as int) =~= g);
                assert(gs[run_of[k]] == g);
            }
            assert(self.lists_ngrams(n as int, gs, out@));
        }
        out
    }

    /// Whether the table is the suffix array of the text: every position once, in suffix
    /// order.
    pub fn is_valid(&self) -> (r: bool)
        ensures
            r == self.wf(),
    {
        let n: usize = self.text.len();
        if self.table.len() != n {
            return false;
        }
        let mut seen: Vec<bool> = Vec::new();
        let mut p: usize = 0;
        while p < n
            invariant
                p <= n,
                seen@.len() == p,
                forall|x: int| 0 <= x < p ==> !seen@[x],
            decreases n - p,
        {
            seen.push(false);
            p = p + 1;
        }
        let mut i: usize = 0;
        while i < n
            invariant
                n == self.text@.len(),
                n == self.table@.len(),
                i <= n,
                seen@.len() == n,
                forall|k: int| 0 <= k < i ==> (self.table@[k] as int) < n,
                forall|k1: int, k2: int| 0 <= k1 < i && 0 <= k2 < i && k1 != k2 ==> self.table@[k1] != self.table@[k2],
                forall|x: int| 0 <= x < n ==> (#[trigger] seen@[x] <==> exists|k: int| 0 <= k < i && self.table@[k] as int == x),
            decreases n - i,
        {
            let v = self.table[i];
            if v >= n as u64 {
                return false;
            }
            if seen[v as usize] {
                proof {
                    let k = choose|k: int| 0 <= k < i && self.table@[k] as int == v as int;
                    assert(self.table@[k] == self.table@[i as int]);
                }
                return false;
            }
            let ghost before = seen@;
            seen.set(v as usize, true);
            proof {
                assert forall|x: int| 0 <= x < n implies (#[trigger] seen@[x] <==> exists|k: int| 0 <= k < i + 1 && self.table@[k] as int == x) by {
                    if x == v as int {
                        assert(self.table@[i as int] as int == x);
                    } else {
                        assert(seen@[x] == before[x]);
                        if exists|k: int| 0 <= k < i + 1 && self.table@[k] as int == x {
                            let k = choose|k: int| 0 <= k < i + 1 && self.table@[k] as int == x;
                            assert(0 <= k < i);
                        }
                    }
                }
            }
            i = i + 1;
        }
        let mut p: usize = 0;
        while p < n
            invariant
                n == self.text@.len(),
                n == self.table@.len(),
                p <= n,
                seen@.len() == n,
                forall|x: int| 0 <= x < n ==> (#[trigger] seen@[x] <==> exists|k: int| 0 <= k < n && self.table@[k] as int == x),
                forall|x: u64| (x as int) < p ==> #[trigger] self.table@.contains(x),
            decreases n - p,
        {
            if !seen[p] {
                proof {
                    if self.table@.contains(p as u64) {
                        let k = choose|k: int| 0 <= k < n && self.table@[k] == p as u64;
                        assert(self.table@[k] as int == p as int);
                    }
                }
                return false;
            }
            proof {
                let k = choose|k: int| 0 <= k < n && self.table@[k] as int == p as int;
                assert forall|x: u64| (x as int) < p + 1 implies #[trigger] self.table@.contains(x) by {
                    if x as int == p as int {
                        assert(self.table@[k] == x);
                    }
                }
            }
            p = p + 1;
        }
        assert(is_permutation(self.table@, n as nat));
        self.is_sorted()
    }
}

} // verus!
