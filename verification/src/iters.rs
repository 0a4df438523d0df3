use vstd::prelude::*;

verus! {

// The enumeration methods of the container hand out small snapshot
// iterators: each holds the identifiers it will yield, in increasing
// order, and steps through them with `next`.

/// Lexicographic order on edge endpoints: by source, then by target.
pub open spec fn pair_lt(a: (u64, u64), b: (u64, u64)) -> bool {
    a.0 < b.0 || (a.0 == b.0 && a.1 < b.1)
}

/// Yields the child identifiers of one node, in increasing order.
pub struct ChildrenIter {
    ids: Vec<u64>,
    pos: usize,
}

impl ChildrenIter {
    #[verifier::type_invariant]
    spec fn inv(self) -> bool {
        self.pos <= self.ids@.len()
    }

    /// The identifiers this iterator has yet to yield.
    pub closed spec fn remaining(self) -> Seq<u64> {
        self.ids@.skip(self.pos as int)
    }

    /// The next child identifier, or `None` when the sequence is finished.
    pub fn next(&mut self) -> (r: Option<u64>)
        ensures
            old(self).remaining().len() > 0 ==> {
                &&& r == Some(old(self).remaining().first())
                &&& final(self).remaining() == old(self).remaining().drop_first()
            },
            old(self).remaining().len() == 0 ==> {
                &&& r is None
                &&& final(self).remaining() == old(self).remaining()
            },
    {
        proof {
            use_type_invariant(&*self);
        }
        if self.pos < self.ids.len() {
            let v = self.ids[self.pos];
            self.pos = self.pos + 1;
            proof {
                assert(final(self).remaining() =~= old(self).remaining().drop_first());
            }
            Some(v)
        } else {
            None
        }
    }

    /// How many identifiers are left.
    pub fn len(&self) -> (n: usize)
        ensures
            n == self.remaining().len(),
    {
        proof {
            use_type_invariant(self);
        }
        self.ids.len() - self.pos
    }
}

pub(crate) fn new_children_iter(ids: Vec<u64>) -> (it: ChildrenIter)
    ensures
        it.remaining() == ids@,
{
    let it = ChildrenIter { ids, pos: 0 };
    proof {
        assert(it.remaining() =~= it.ids@);
    }
    it
}

/// Yields the parent identifiers of one node, in increasing order.
pub struct ParentsIter {
    ids: Vec<u64>,
    pos: usize,
}

impl ParentsIter {
    #[verifier::type_invariant]
    spec fn inv(self) -> bool {
        self.pos <= self.ids@.len()
    }

    /// The identifiers this iterator has yet to yield.
    pub closed spec fn remaining(self) -> Seq<u64> {
        self.ids@.skip(self.pos as int)
    }

    /// The next parent identifier, or `None` when the sequence is finished.
    pub fn next(&mut self) -> (r: Option<u64>)
        ensures
            old(self).remaining().len() > 0 ==> {
                &&& r == Some(old(self).remaining().first())
                &&& final(self).remaining() == old(self).remaining().drop_first()
            },
            old(self).remaining().len() == 0 ==> {
                &&& r is None
                &&& final(self).remaining() == old(self).remaining()
            },
    {
        proof {
            use_type_invariant(&*self);
        }
        if self.pos < self.ids.len() {
            let v = self.ids[self.pos];
            self.pos = self.pos + 1;
            proof {
                assert(final(self).remaining() =~= old(self).remaining().drop_first());
            }
            Some(v)
        } else {
            None
        }
    }

    /// How many identifiers are left.
    pub fn len(&self) -> (n: usize)
        ensures
            n == self.remaining().len(),
    {
        proof {
            use_type_invariant(self);
        }
        self.ids.len() - self.pos
    }
}

pub(crate) fn new_parents_iter(ids: Vec<u64>) -> (it: ParentsIter)
    ensures
        it.remaining() == ids@,
{
    let it = ParentsIter { ids, pos: 0 };
    proof {
        assert(it.remaining() =~= it.ids@);
    }
    it
}

/// Yields every edge as a (source, target) pair, ordered by source and
/// then by target.
pub struct EdgesIter {
    pairs: Vec<(u64, u64)>,
    pos: usize,
}

impl EdgesIter {
    #[verifier::type_invariant]
    spec fn inv(self) -> bool {
        self.pos <= self.pairs@.len()
    }

    /// The endpoint pairs this iterator has yet to yield.
    pub closed spec fn remaining(self) -> Seq<(u64, u64)> {
        self.pairs@.skip(self.pos as int)
    }

    /// The next edge, or `None` when the sequence is finished.
    pub fn next(&mut self) -> (r: Option<(u64, u64)>)
        ensures
            old(self).remaining().len() > 0 ==> {
                &&& r == Some(old(self).remaining().first())
                &&& final(self).remaining() == old(self).remaining().drop_first()
            },
            old(self).remaining().len() == 0 ==> {
                &&& r is None
                &&& final(self).remaining() == old(self).remaining()
            },
    {
        proof {
            use_type_invariant(&*self);
        }
        if self.pos < self.pairs.len() {
            let v = self.pairs[self.pos];
            self.pos = self.pos + 1;
            proof {
                assert(final(self).remaining() =~= old(self).remaining().drop_first());
            }
            Some(v)
        } else {
            None
        }
    }

    /// How many edges are left.
    pub fn len(&self) -> (n: usize)
        ensures
            n == self.remaining().len(),
    {
        proof {
            use_type_invariant(self);
        }
        self.pairs.len() - self.pos
    }
}

pub(crate) fn new_edges_iter(pairs: Vec<(u64, u64)>) -> (it: EdgesIter)
    ensures
        it.remaining() == pairs@,
{
    let it = EdgesIter { pairs, pos: 0 };
    proof {
        assert(it.remaining() =~= it.pairs@);
    }
    it
}

} // verus!
