//! Splitting a chunk equation: when a window of a sequence equals a
//! concatenation, each part stands in its own window.

use vstd::prelude::*;

verus! {

/// A chunk equation for a concatenation splits into one equation per part.
pub proof fn lemma_chunk_split<A>(text: Seq<A>, i: int, a: Seq<A>, b: Seq<A>)
    requires
        0 <= i,
        i + a.len() + b.len() <= text.len(),
        text.subrange(i, i + a.len() + b.len()) == a + b,
    ensures
        text.subrange(i, i + a.len()) == a,
        text.subrange(i + a.len(), i + a.len() + b.len()) == b,
{
    assert(text.subrange(i, i + a.len()) =~= a) by {
        assert forall|m: int| 0 <= m < a.len() implies text.subrange(i, i + a.len())[m] == a[m] by {
            assert(text.subrange(i, i + a.len() + b.len())[m] == (a + b)[m]);
        }
    }
    assert(text.subrange(i + a.len(), i + a.len() + b.len()) =~= b) by {
        assert forall|m: int|
            0 <= m < b.len() implies text.subrange(i + a.len(), i + a.len() + b.len())[m]
            == b[m] by {
            assert(text.subrange(i, i + a.len() + b.len())[a.len() + m] == (a + b)[a.len() + m]);
            assert((a + b)[a.len() + m] == b[m]);
            assert(text.subrange(i, i + a.len() + b.len())[a.len() + m] == text[i + a.len() + m]);
            assert(text.subrange(i + a.len(), i + a.len() + b.len())[m] == text[i + a.len() + m]);
        }
    }
}

/// A chunk equation for a single element names that element.
pub proof fn lemma_chunk_one<A>(text: Seq<A>, i: int, c: A)
    requires
        0 <= i,
        i + 1 <= text.len(),
        text.subrange(i, i + 1) == seq![c],
    ensures
        text[i] == c,
{
    assert(text.subrange(i, i + 1)[0] == text[i]);
}

} // verus!
