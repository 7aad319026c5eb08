use vstd::prelude::*;

verus! {

/// `q` is a prefix of `s`.
pub open spec fn is_prefix(q: Seq<u16>, s: Seq<u16>) -> bool {
    q.len() <= s.len() && s.subrange(0, q.len() as int) == q
}

/// Lexicographic order on token sequences: `a <= b`. A proper prefix sorts first.
pub open spec fn lex_le(a: Seq<u16>, b: Seq<u16>) -> bool
    decreases a.len(),
{
    if a.len() == 0 {
        true
    } else if b.len() == 0 {
        false
    } else if a[0] != b[0] {
        a[0] < b[0]
    } else {
        lex_le(a.drop_first(), b.drop_first())
    }
}

pub proof fn lemma_lex_refl(a: Seq<u16>)
    ensures
        lex_le(a, a),
    decreases a.len(),
{
    if a.len() > 0 {
        lemma_lex_refl(a.drop_first());
    }
}

pub proof fn lemma_lex_total(a: Seq<u16>, b: Seq<u16>)
    ensures
        lex_le(a, b) || lex_le(b, a),
    decreases a.len(),
{
    if a.len() > 0 && b.len() > 0 && a[0] == b[0] {
        lemma_lex_total(a.drop_first(), b.drop_first());
    }
}

pub proof fn lemma_lex_antisym(a: Seq<u16>, b: Seq<u16>)
    requires
        lex_le(a, b),
        lex_le(b, a),
    ensures
        a == b,
    decreases a.len(),
{
    if a.len() > 0 && b.len() > 0 {
        lemma_lex_antisym(a.drop_first(), b.drop_first());
        assert(a =~= seq![a[0]] + a.drop_first());
        assert(b =~= seq![b[0]] + b.drop_first());
    } else {
        assert(a =~= b);
    }
}

pub proof fn lemma_lex_trans(a: Seq<u16>, b: Seq<u16>, c: Seq<u16>)
    requires
        lex_le(a, b),
        lex_le(b, c),
    ensures
        lex_le(a, c),
    decreases a.len(),
{
    if a.len() > 0 && b.len() > 0 && c.len() > 0 && a[0] == b[0] && b[0] == c[0] {
        lemma_lex_trans(a.drop_first(), b.drop_first(), c.drop_first());
    }
}

pub proof fn lemma_prefix_le(q: Seq<u16>, s: Seq<u16>)
    requires
        is_prefix(q, s),
    ensures
        lex_le(q, s),
    decreases q.len(),
{
    if q.len() > 0 {
        assert(q[0] == s.subrange(0, q.len() as int)[0]);
        assert(s.drop_first().subrange(0, q.len() - 1) =~= q.drop_first());
        lemma_prefix_le(q.drop_first(), s.drop_first());
    }
}

/// A sequence that sorts between two sequences sharing the prefix `p` shares it too.
pub proof fn lemma_prefix_between(p: Seq<u16>, x: Seq<u16>, y: Seq<u16>, z: Seq<u16>)
    requires
        is_prefix(p, x),
        is_prefix(p, z),
        lex_le(x, y),
        lex_le(y, z),
    ensures
        is_prefix(p, y),
    decreases p.len(),
{
    if p.len() > 0 {
        assert(x[0] == x.subrange(0, p.len() as int)[0]);
        assert(z[0] == z.subrange(0, p.len() as int)[0]);
        assert(x.drop_first().subrange(0, p.len() - 1) =~= p.drop_first());
        assert(z.drop_first().subrange(0, p.len() - 1) =~= p.drop_first());
        lemma_prefix_between(p.drop_first(), x.drop_first(), y.drop_first(), z.drop_first());
        assert(y.subrange(0, p.len() as int) =~= seq![y[0]] + y.drop_first().subrange(
            0,
            p.len() - 1,
        ));
        assert(p =~= seq![p[0]] + p.drop_first());
    } else {
        assert(y.subrange(0, 0) =~= p);
    }
}

/// Decides `lex_le(x[i..], y[j..])`.
pub fn suffix_le(x: &[u16], i: usize, y: &[u16], j: usize) -> (r: bool)
    requires
        i <= x@.len(),
        j <= y@.len(),
    ensures
        r == lex_le(x@.subrange(i as int, x@.len() as int), y@.subrange(j as int, y@.len() as int)),
{
    let mut a: usize = i;
    let mut b: usize = j;
    while a < x.len() && b < y.len() && x[a] == y[b]
        invariant
            i <= a <= x@.len(),
            j <= b <= y@.len(),
            lex_le(x@.subrange(i as int, x@.len() as int), y@.subrange(j as int, y@.len() as int))
                == lex_le(x@.subrange(a as int, x@.len() as int), y@.subrange(b as int, y@.len() as int)),
        decreases x@.len() - a,
    {
        assert(x@.subrange(a as int, x@.len() as int).drop_first() =~= x@.subrange(a + 1, x@.len() as int));
        assert(y@.subrange(b as int, y@.len() as int).drop_first() =~= y@.subrange(b + 1, y@.len() as int));
        a = a + 1;
        b = b + 1;
    }
    if a == x.len() {
        true
    } else if b == y.len() {
        false
    } else {
        x[a] < y[b]
    }
}

/// Decides `is_prefix(q, x[i..])`.
pub fn prefix_at(q: &[u16], x: &[u16], i: usize) -> (r: bool)
    requires
        i <= x@.len(),
    ensures
        r == is_prefix(q@, x@.subrange(i as int, x@.len() as int)),
{
    let n: usize = x.len();
    if q.len() > n - i {
        return false;
    }
    let mut k: usize = 0;
    while k < q.len()
        invariant
            k <= q@.len(),
            n == x@.len(),
            i <= n,
            q@.len() <= n - i,
            forall|m: int| 0 <= m < k ==> q@[m] == x@[i + m],
        decreases q@.len() - k,
    {
        if q[k] != x[i + k] {
            assert(x@.subrange(i as int, x@.len() as int).subrange(0, q@.len() as int)[k as int]
                != q@[k as int]);
            return false;
        }
        k = k + 1;
    }
    assert(x@.subrange(i as int, x@.len() as int).subrange(0, q@.len() as int) =~= q@);
    true
}

} // verus!
