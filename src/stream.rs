use vstd::prelude::*;
use crate::descriptor::DescKey;

verus! {

/// `s` with `children` inserted right after position `i`.
pub open spec fn spliced(s: Seq<DescKey>, i: int, children: Seq<DescKey>) -> Seq<DescKey> {
    s.subrange(0, i + 1) + children + s.subrange(i + 1, s.len() as int)
}

/// The list of descriptors being executed, with the position of the one at hand.
pub struct DescriptorStream {
    pub keys: Vec<DescKey>,
    pub index: usize,
}

impl DescriptorStream {
    /// A stream over `keys`, positioned at the first one.
    pub fn new(keys: Vec<DescKey>) -> (r: DescriptorStream)
        ensures
            r.keys@ == keys@,
            r.index == 0,
    {
        DescriptorStream { keys, index: 0 }
    }

    /// Whether a descriptor is left at the current position.
    pub fn remaining(&self) -> (r: bool)
        ensures
            r == (self.index < self.keys@.len()),
    {
        self.index < self.keys.len()
    }

    /// The descriptor at the current position.
    pub fn current(&self) -> (r: DescKey)
        requires
            self.index < self.keys@.len(),
        ensures
            r == self.keys@[self.index as int],
    {
        self.keys[self.index]
    }

    /// Moves to the next descriptor.
    pub fn advance(&mut self)
        requires
            old(self).index < old(self).keys@.len(),
        ensures
            final(self).keys@ == old(self).keys@,
            final(self).index == old(self).index + 1,
    {
        let n = self.keys.len();
        assert(self.index < n);
        self.index = self.index + 1;
    }

    /// Inserts `children`, in order, right after the current descriptor; the
    /// position does not move, so the first child comes next.
    pub fn expand(&mut self, children: &Vec<DescKey>)
        requires
            old(self).index < old(self).keys@.len(),
            old(self).keys@.len() + children@.len() <= usize::MAX,
        ensures
            final(self).keys@ == spliced(old(self).keys@, old(self).index as int, children@),
            final(self).index == old(self).index,
    {
        let ghost s = self.keys@;
        let ghost i = self.index as int;
        let mut c: usize = 0;
        assert(s.subrange(0, i + 1) + children@.subrange(0, 0) + s.subrange(i + 1, s.len() as int) =~= s);
        while c < children.len()
            invariant
                self.index == i,
                i < s.len(),
                s.len() + children@.len() <= usize::MAX,
                c <= children@.len(),
                self.keys@ == s.subrange(0, i + 1) + children@.subrange(0, c as int) + s.subrange(i + 1, s.len() as int),
            decreases children@.len() - c,
        {
            let ghost before = self.keys@;
            self.keys.insert(self.index + 1 + c, children[c]);
            assert(self.keys@ =~= s.subrange(0, i + 1) + children@.subrange(0, c + 1) + s.subrange(i + 1, s.len() as int));
            c = c + 1;
        }
        assert(children@.subrange(0, children@.len() as int) =~= children@);
    }
}

/// Expanding at position `i` lengthens the stream by the number of children,
/// puts the children, in order, at positions `i+1 ..= i+k`, and keeps every
/// other descriptor in its relative order: those up to `i` where they were,
/// those after `i` shifted by `k`.
pub proof fn lemma_expansion(s: Seq<DescKey>, i: int, children: Seq<DescKey>)
    requires
        0 <= i < s.len(),
    ensures
        spliced(s, i, children).len() == s.len() + children.len(),
        forall|j: int| 0 <= j < children.len() ==> spliced(s, i, children)[i + 1 + j] == children[j],
        forall|j: int| 0 <= j <= i ==> spliced(s, i, children)[j] == s[j],
        forall|j: int| i < j < s.len() ==> spliced(s, i, children)[j + children.len()] == s[j],
{
}

} // verus!
