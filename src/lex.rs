//! Lexicographic order on character sequences.

use vstd::prelude::*;

verus! {

/// `x` sorts strictly before `y`, comparing character by character.
pub open spec fn lex_lt(x: Seq<char>, y: Seq<char>) -> bool
    decreases x.len(),
{
    if y.len() == 0 {
        false
    } else if x.len() == 0 {
        true
    } else if x[0] != y[0] {
        x[0] < y[0]
    } else {
        lex_lt(x.drop_first(), y.drop_first())
    }
}

pub proof fn lemma_lt_irreflexive(x: Seq<char>)
    ensures
        !lex_lt(x, x),
    decreases x.len(),
{
    if x.len() > 0 {
        lemma_lt_irreflexive(x.drop_first());
    }
}

pub proof fn lemma_lt_transitive(x: Seq<char>, y: Seq<char>, z: Seq<char>)
    requires
        lex_lt(x, y),
        lex_lt(y, z),
    ensures
        lex_lt(x, z),
    decreases x.len(),
{
    if x.len() > 0 && x[0] == y[0] && y[0] == z[0] {
        lemma_lt_transitive(x.drop_first(), y.drop_first(), z.drop_first());
    }
}

/// Two sequences that agree before position `k` and differ there are ordered by that position.
pub proof fn lemma_lt_at(x: Seq<char>, y: Seq<char>, k: int)
    requires
        0 <= k < x.len(),
        k < y.len(),
        forall|i: int| 0 <= i < k ==> x[i] == y[i],
        x[k] < y[k],
    ensures
        lex_lt(x, y),
    decreases k,
{
    if k > 0 {
        assert(x[0] == y[0]);
        lemma_lt_at(x.drop_first(), y.drop_first(), k - 1);
    }
}

/// A proper prefix sorts first.
pub proof fn lemma_lt_prefix(x: Seq<char>, y: Seq<char>)
    requires
        x.len() < y.len(),
        forall|i: int| 0 <= i < x.len() ==> x[i] == y[i],
    ensures
        lex_lt(x, y),
    decreases x.len(),
{
    if x.len() > 0 {
        assert(x[0] == y[0]);
        lemma_lt_prefix(x.drop_first(), y.drop_first());
    }
}

/// Where `x` sorts before `y`: the first position `k` at which they differ, or `k == x.len()`
/// when `x` is a proper prefix of `y`.
pub proof fn lemma_lt_witness(x: Seq<char>, y: Seq<char>) -> (k: int)
    requires
        lex_lt(x, y),
    ensures
        0 <= k <= x.len(),
        k < y.len(),
        forall|i: int| 0 <= i < k ==> x[i] == y[i],
        k < x.len() ==> x[k] < y[k],
    decreases x.len(),
{
    if x.len() == 0 || x[0] != y[0] {
        0
    } else {
        let k = lemma_lt_witness(x.drop_first(), y.drop_first());
        assert forall|i: int| 0 <= i < k + 1 implies x[i] == y[i] by {
            if i > 0 {
                assert(x[i] == x.drop_first()[i - 1]);
            }
        }
        k + 1
    }
}

/// A common prefix does not change the order.
pub proof fn lemma_lt_common_prefix(p: Seq<char>, x: Seq<char>, y: Seq<char>)
    ensures
        lex_lt(p + x, p + y) == lex_lt(x, y),
    decreases p.len(),
{
    if p.len() > 0 {
        assert((p + x).drop_first() =~= p.drop_first() + x);
        assert((p + y).drop_first() =~= p.drop_first() + y);
        lemma_lt_common_prefix(p.drop_first(), x, y);
    } else {
        assert(p + x =~= x);
        assert(p + y =~= y);
    }
}

/// Lexicographic comparison of two character vectors.
pub fn lex_less(x: &Vec<char>, y: &Vec<char>) -> (r: bool)
    ensures
        r == lex_lt(x@, y@),
{
    let mut i: usize = 0;
    assert(x@.skip(0) =~= x@);
    assert(y@.skip(0) =~= y@);
    while i < x.len() && i < y.len()
        invariant
            i <= x.len(),
            i <= y.len(),
            lex_lt(x@, y@) == lex_lt(x@.skip(i as int), y@.skip(i as int)),
        decreases x.len() - i,
    {
        if x[i] != y[i] {
            return x[i] < y[i];
        }
        assert(x@.skip(i as int).drop_first() =~= x@.skip(i + 1));
        assert(y@.skip(i as int).drop_first() =~= y@.skip(i + 1));
        i += 1;
    }
    i < y.len()
}

} // verus!
