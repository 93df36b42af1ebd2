//! Character frequency tables: an association list from characters to
//! their weights, with distinct keys, in insertion order.

use vstd::prelude::*;
use vstd::multiset::Multiset;

verus! {

broadcast use vstd::seq_lib::group_to_multiset_ensures, vstd::multiset::group_multiset_axioms;

/// How often each character occurs: a table from characters to weights
/// whose keys are pairwise distinct. Entries keep their insertion order,
/// so that every walk over the table is deterministic.
pub struct FreqTable {
    entries: Vec<(char, u32)>,
}

impl View for FreqTable {
    type V = Seq<(char, u32)>;

    closed spec fn view(&self) -> Seq<(char, u32)> {
        self.entries@
    }
}

/// The weight stored for `c`, if any.
pub open spec fn spec_get(s: Seq<(char, u32)>, c: char) -> Option<u32>
    decreases s.len(),
{
    if s.len() == 0 {
        None
    } else if s[0].0 == c {
        Some(s[0].1)
    } else {
        spec_get(s.drop_first(), c)
    }
}

/// The weight stored for `c`, or zero.
pub open spec fn freq_of(s: Seq<(char, u32)>, c: char) -> int {
    match spec_get(s, c) {
        Some(w) => w as int,
        None => 0,
    }
}

/// The table after storing `w` for `c`: the entry is replaced in place, or
/// appended when `c` is new.
pub open spec fn spec_set(s: Seq<(char, u32)>, c: char, w: u32) -> Seq<(char, u32)>
    decreases s.len(),
{
    if s.len() == 0 {
        seq![(c, w)]
    } else if s[0].0 == c {
        seq![(c, w)] + s.drop_first()
    } else {
        seq![s[0]] + spec_set(s.drop_first(), c, w)
    }
}

impl FreqTable {
    /// The keys are pairwise distinct.
    pub open spec fn wf(&self) -> bool {
        forall|i: int, j: int|
            0 <= i < j < self@.len() ==> (#[trigger] self@[i]).0 != (#[trigger] self@[j]).0
    }

    /// An empty table.
    pub fn new() -> (r: FreqTable)
        ensures
            r@ == Seq::<(char, u32)>::empty(),
            r.wf(),
    {
        FreqTable { entries: Vec::new() }
    }

    /// How many characters have an entry.
    pub fn len(&self) -> (r: usize)
        ensures
            r == self@.len(),
    {
        self.entries.len()
    }

    /// The entries, in insertion order.
    pub fn pairs(&self) -> (r: &Vec<(char, u32)>)
        ensures
            r@ == self@,
    {
        &self.entries
    }

    /// The weight stored for `c`, if any.
    pub fn get(&self, c: char) -> (r: Option<u32>)
        ensures
            r == spec_get(self@, c),
    {
        let mut i: usize = 0;
        proof {
            assert(self@.skip(0) =~= self@);
        }
        while i < self.entries.len()
            invariant
                0 <= i <= self@.len(),
                spec_get(self@, c) == spec_get(self@.skip(i as int), c),
            decreases self@.len() - i,
        {
            proof {
                assert(self@.skip(i as int)[0] == self@[i as int]);
                assert(self@.skip(i as int).drop_first() =~= self@.skip(i + 1));
            }
            let e = self.entries[i];
            if e.0 == c {
                return Some(e.1);
            }
            i = i + 1;
        }
        proof {
            assert(self@.skip(i as int).len() == 0);
        }
        None
    }

    /// Stores `w` for `c`, replacing any earlier entry.
    #[verifier::loop_isolation(false)]
    pub fn set(&mut self, c: char, w: u32)
        requires
            old(self).wf(),
        ensures
            final(self)@ == spec_set(old(self)@, c, w),
            final(self).wf(),
    {
        let ghost orig = self@;
        let mut i: usize = 0;
        proof {
            assert(orig.skip(0) =~= orig);
            assert(orig.subrange(0, 0) =~= Seq::<(char, u32)>::empty());
            assert(Seq::<(char, u32)>::empty() + spec_set(orig, c, w) =~= spec_set(orig, c, w));
        }
        while i < self.entries.len()
            invariant
                0 <= i <= self@.len(),
                self@ == orig,
                forall|k: int| 0 <= k < i ==> (#[trigger] orig[k]).0 != c,
                spec_set(orig, c, w) == orig.subrange(0, i as int) + spec_set(
                    orig.skip(i as int),
                    c,
                    w,
                ),
            decreases self@.len() - i,
        {
            proof {
                assert(orig.skip(i as int)[0] == orig[i as int]);
                assert(orig.skip(i as int).drop_first() =~= orig.skip(i + 1));
            }
            let e = self.entries[i];
            if e.0 == c {
                self.entries[i] = (c, w);
                proof {
                    assert(self@ == orig.update(i as int, (c, w)));
                    assert(spec_set(orig.skip(i as int), c, w) == seq![(c, w)] + orig.skip(i + 1));
                    assert(spec_set(orig, c, w) == orig.subrange(0, i as int) + (seq![(c, w)]
                        + orig.skip(i + 1)));
                    assert(self@ =~= orig.subrange(0, i as int) + (seq![(c, w)] + orig.skip(
                        i + 1,
                    )));
                    assert forall|a: int, b: int|
                        0 <= a < b < self@.len() implies (#[trigger] self@[a]).0 != (
                    #[trigger] self@[b]).0 by {
                        assert((old(self)@[a]).0 != (old(self)@[b]).0);
                        assert(self@[i as int].0 == orig[i as int].0);
                        if a != i {
                            assert(self@[a] == orig[a]);
                        }
                        if b != i {
                            assert(self@[b] == orig[b]);
                        }
                    }
                }
                return ;
            }
            proof {
                assert(orig.subrange(0, i + 1) =~= orig.subrange(0, i as int) + seq![
                    orig[i as int],
                ]);
                assert(spec_set(orig.skip(i as int), c, w) == seq![orig[i as int]] + spec_set(
                    orig.skip(i + 1),
                    c,
                    w,
                ));
                assert(orig.subrange(0, i as int) + (seq![orig[i as int]] + spec_set(
                    orig.skip(i + 1),
                    c,
                    w,
                )) =~= orig.subrange(0, i + 1) + spec_set(orig.skip(i + 1), c, w));
            }
            i = i + 1;
        }
        proof {
            assert(orig.skip(i as int).len() == 0);
            assert(spec_set(orig.skip(i as int), c, w) == seq![(c, w)]);
        }
        self.entries.push((c, w));
        proof {
            assert(self@ =~= orig.subrange(0, i as int) + seq![(c, w)]);
            assert(orig.subrange(0, i as int) =~= orig);
            assert forall|a: int, b: int|
                0 <= a < b < self@.len() implies (#[trigger] self@[a]).0 != (
            #[trigger] self@[b]).0 by {
                if b < self@.len() - 1 {
                    assert((old(self)@[a]).0 != (old(self)@[b]).0);
                } else {
                    assert(self@[b].0 == c);
                    assert((orig[a]).0 != c);
                }
            }
        }
    }
}

/// Law: after storing `w` for `c`, looking `c` up finds `w`.
pub proof fn lemma_get_set_same(s: Seq<(char, u32)>, c: char, w: u32)
    ensures
        spec_get(spec_set(s, c, w), c) == Some(w),
    decreases s.len(),
{
    if s.len() == 0 {
    } else if s[0].0 == c {
        assert((seq![(c, w)] + s.drop_first())[0] == (c, w));
    } else {
        lemma_get_set_same(s.drop_first(), c, w);
        assert((seq![s[0]] + spec_set(s.drop_first(), c, w))[0] == s[0]);
        assert((seq![s[0]] + spec_set(s.drop_first(), c, w)).drop_first() =~= spec_set(
            s.drop_first(),
            c,
            w,
        ));
    }
}

/// Law: storing a weight for `c` leaves every other character's entry
/// unchanged.
pub proof fn lemma_get_set_other(s: Seq<(char, u32)>, c: char, w: u32, d: char)
    requires
        d != c,
    ensures
        spec_get(spec_set(s, c, w), d) == spec_get(s, d),
    decreases s.len(),
{
    if s.len() == 0 {
        assert(seq![(c, w)][0] == (c, w));
        assert(seq![(c, w)].drop_first() =~= Seq::<(char, u32)>::empty());
        assert(spec_get(Seq::<(char, u32)>::empty(), d) == None::<u32>);
    } else if s[0].0 == c {
        assert((seq![(c, w)] + s.drop_first())[0] == (c, w));
        assert((seq![(c, w)] + s.drop_first()).drop_first() =~= s.drop_first());
    } else {
        lemma_get_set_other(s.drop_first(), c, w, d);
        assert((seq![s[0]] + spec_set(s.drop_first(), c, w))[0] == s[0]);
        assert((seq![s[0]] + spec_set(s.drop_first(), c, w)).drop_first() =~= spec_set(
            s.drop_first(),
            c,
            w,
        ));
    }
}

/// Counts how often each character occurs in a text: the computing core of
/// building a frequency table from an input stream.
#[verifier::loop_isolation(false)]
pub fn count_frequencies(chars: &Vec<char>) -> (r: FreqTable)
    requires
        chars@.len() <= u32::MAX as int,
    ensures
        r.wf(),
        forall|c: char| freq_of(r@, c) == chars@.to_multiset().count(c),
{
    let mut r = FreqTable::new();
    let mut k: usize = 0;
    proof {
        assert(chars@.subrange(0, 0) =~= Seq::<char>::empty());
        assert(forall|c: char| freq_of(r@, c) == 0);
        assert(chars@.subrange(0, 0).to_multiset() =~= Multiset::<char>::empty());
    }
    while k < chars.len()
        invariant
            k <= chars@.len(),
            r.wf(),
            forall|c: char| freq_of(r@, c) == chars@.subrange(0, k as int).to_multiset().count(c),
            forall|c: char| freq_of(r@, c) <= k,
        decreases chars@.len() - k,
    {
        let c = chars[k];
        let ghost pre = r@;
        let w: u32 = match r.get(c) {
            Some(w) => w,
            None => 0,
        };
        proof {
            assert(freq_of(pre, c) <= k);
        }
        r.set(c, w + 1);
        proof {
            lemma_get_set_same(pre, c, (w + 1) as u32);
            assert(chars@.subrange(0, k + 1) =~= chars@.subrange(0, k as int).push(
                chars@[k as int],
            ));
            assert(chars@.subrange(0, k as int).push(c).to_multiset() =~= chars@.subrange(
                0,
                k as int,
            ).to_multiset().insert(c));
            assert(chars@.subrange(0, k + 1).to_multiset() == chars@.subrange(0, k as int).push(
                c,
            ).to_multiset());
            assert forall|d: char|
                freq_of(r@, d) == chars@.subrange(0, k + 1).to_multiset().count(d) by {
                assert(freq_of(pre, d) == chars@.subrange(0, k as int).to_multiset().count(d));
                if d != c {
                    lemma_get_set_other(pre, c, (w + 1) as u32, d);
                }
            }
            assert forall|d: char| freq_of(r@, d) <= k + 1 by {
                assert(freq_of(pre, d) <= k);
                if d != c {
                    lemma_get_set_other(pre, c, (w + 1) as u32, d);
                }
            }
        }
        k = k + 1;
    }
    proof {
        assert(chars@.subrange(0, chars@.len() as int) =~= chars@);
    }
    r
}

} // verus!
