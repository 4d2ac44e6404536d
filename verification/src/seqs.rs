//! Facts about byte sequences used by the search laws: occurrence counts
//! and prefix ordering.

use vstd::prelude::*;

verus! {

/// How many positions of `s` hold the byte `c`.
pub open spec fn count_byte(s: Seq<u8>, c: u8) -> int
    decreases s.len(),
{
    if s.len() == 0 {
        0
    } else {
        count_byte(s.drop_last(), c) + if s.last() == c { 1int } else { 0int }
    }
}

/// A count may be taken first-element-first as well.
pub proof fn lemma_count_drop_first(s: Seq<u8>, c: u8)
    requires
        s.len() > 0,
    ensures
        count_byte(s, c) == count_byte(s.drop_first(), c) + if s[0] == c { 1int } else { 0int },
    decreases s.len(),
{
    if s.len() == 1 {
        assert(s.drop_first() =~= Seq::<u8>::empty());
        assert(s.drop_last() =~= Seq::<u8>::empty());
    } else {
        lemma_count_drop_first(s.drop_last(), c);
        assert(s.drop_last().drop_first() =~= s.drop_first().drop_last());
        assert(s.drop_last()[0] == s[0]);
        assert(s.drop_first().last() == s.last());
    }
}

/// A prefix of `s` holds at most as many occurrences of any byte.
pub proof fn lemma_count_prefix_le(q: Seq<u8>, s: Seq<u8>, c: u8)
    requires
        q.is_prefix_of(s),
    ensures
        count_byte(q, c) <= count_byte(s, c),
    decreases s.len(),
{
    if q.len() == s.len() {
        assert(q =~= s);
    } else {
        assert(q.is_prefix_of(s.drop_last())) by {
            assert(q =~= s.drop_last().subrange(0, q.len() as int));
        }
        lemma_count_prefix_le(q, s.drop_last(), c);
    }
}

/// Appending one byte raises its count by one and no other.
pub proof fn lemma_count_push(s: Seq<u8>, x: u8, c: u8)
    ensures
        count_byte(s.push(x), c) == count_byte(s, c) + if x == c { 1int } else { 0int },
{
    assert(s.push(x).drop_last() =~= s);
}

/// Every sequence is a prefix of itself.
pub proof fn lemma_prefix_refl(s: Seq<u8>)
    ensures
        s.is_prefix_of(s),
{
    assert(s =~= s.subrange(0, s.len() as int));
}

/// Prefix ordering is transitive.
pub proof fn lemma_prefix_trans(a: Seq<u8>, b: Seq<u8>, c: Seq<u8>)
    requires
        a.is_prefix_of(b),
        b.is_prefix_of(c),
    ensures
        a.is_prefix_of(c),
{
    assert(a =~= c.subrange(0, a.len() as int));
}

/// A sequence is a prefix of itself extended by one byte.
pub proof fn lemma_prefix_push(s: Seq<u8>, x: u8)
    ensures
        s.is_prefix_of(s.push(x)),
{
    assert(s =~= s.push(x).subrange(0, s.len() as int));
}

/// `p + x` leads into `w` exactly when `p` does and `w` continues with `x`.
pub proof fn lemma_push_prefix_of(p: Seq<u8>, x: u8, w: Seq<u8>)
    ensures
        p.push(x).is_prefix_of(w)
            <==> p.is_prefix_of(w) && p.len() < w.len() && w[p.len() as int] == x,
{
    if p.push(x).is_prefix_of(w) {
        assert(p =~= w.subrange(0, p.len() as int)) by {
            assert(forall|k: int|
                0 <= k < p.len() ==> p[k] == #[trigger] w.subrange(0, p.len() as int + 1)[k]);
        }
        assert(w[p.len() as int] == w.subrange(0, p.len() as int + 1)[p.len() as int]);
    }
    if p.is_prefix_of(w) && p.len() < w.len() && w[p.len() as int] == x {
        assert(p.push(x) =~= w.subrange(0, p.len() as int + 1));
    }
}

/// A prefix of `p + x` is a prefix of `p`, or is `p + x` itself.
pub proof fn lemma_prefix_of_push(c: Seq<u8>, p: Seq<u8>, x: u8)
    requires
        c.is_prefix_of(p.push(x)),
    ensures
        c.is_prefix_of(p) || c == p.push(x),
{
    if c.len() <= p.len() {
        assert(c =~= p.subrange(0, c.len() as int));
    } else {
        assert(c =~= p.push(x));
    }
}

/// A prefix at least as long as the whole is the whole.
pub proof fn lemma_prefix_full(q: Seq<u8>, s: Seq<u8>)
    requires
        q.is_prefix_of(s),
        q.len() >= s.len(),
    ensures
        q == s,
{
    assert(q =~= s);
}

} // verus!
