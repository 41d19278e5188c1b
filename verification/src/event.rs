//! Event categories, event values, and the state-provider interface.

use vstd::prelude::*;

verus! {

/// A category key: an opaque identifier for a class of events that share a
/// dispatch target set. Equality is stable for the lifetime of any
/// subscription using it.
#[derive(PartialEq, Eq, Structural, Clone, Copy, Hash, Debug)]
pub struct C(pub u64);

/// An event value. `Ignored` denotes "no event occurred, skip me" and is
/// filtered out before push-mode dispatch; every `Occurred` value maps
/// deterministically to exactly one category.
#[derive(PartialEq, Eq, Structural, Clone, Copy, Debug)]
pub enum V {
    Ignored,
    Occurred(C, u64),
}

impl V {
    /// Whether this value is the reserved "no event" case.
    pub open spec fn ignored(self) -> bool {
        self is Ignored
    }

    /// The category an occurred value belongs to.
    pub open spec fn cat(self) -> C
        recommends
            !self.ignored(),
    {
        match self {
            V::Ignored => C(0),
            V::Occurred(c, _) => c,
        }
    }
}

/// The state-owning collaborator queried by poll-mode dispatch: it supplies
/// the current event value for each category.
pub trait State: Sized {
    /// The value this state currently associates with category `c`.
    spec fn current(self, c: C) -> V;

    /// Query the current value for a category.
    fn get(&self, c: &C) -> (v: V)
        ensures
            v == self.current(*c),
    ;
}

/// A simple table-backed state provider: a list of category/value pairs,
/// where the most recently set pair for a category wins and an unmapped
/// category reads as `V::Ignored`.
pub struct TableState {
    pairs: Vec<(C, V)>,
}

/// The value the first pair with category `c` holds, or `V::Ignored` when no
/// pair matches.
pub open spec fn lookup(pairs: Seq<(C, V)>, c: C) -> V
    decreases pairs.len(),
{
    if pairs.len() == 0 {
        V::Ignored
    } else if pairs[0].0 == c {
        pairs[0].1
    } else {
        lookup(pairs.drop_first(), c)
    }
}

impl TableState {
    /// An empty table: every category reads as `V::Ignored`.
    pub fn new() -> (t: TableState)
        ensures
            forall|c: C| t.current(c) == V::Ignored,
    {
        TableState { pairs: Vec::new() }
    }

    /// Set the value for one category, leaving every other category as it was.
    pub fn set(&mut self, c: C, v: V)
        ensures
            final(self).current(c) == v,
            forall|c2: C| c2 != c ==> final(self).current(c2) == old(self).current(c2),
    {
        self.pairs.insert(0, (c, v));
        proof {
            assert(self.pairs@.drop_first() =~= old(self).pairs@);
        }
    }
}

impl State for TableState {
    closed spec fn current(self, c: C) -> V {
        lookup(self.pairs@, c)
    }

    fn get(&self, c: &C) -> (v: V) {
        proof {
            assert(self.pairs@.skip(0) =~= self.pairs@);
        }
        let mut i: usize = 0;
        while i < self.pairs.len()
            invariant
                i <= self.pairs@.len(),
                lookup(self.pairs@, *c) == lookup(self.pairs@.skip(i as int), *c),
            decreases self.pairs@.len() - i,
        {
            let (pc, pv) = self.pairs[i];
            proof {
                assert(self.pairs@.skip(i as int).drop_first() =~= self.pairs@.skip(i + 1));
            }
            if pc == *c {
                return pv;
            }
            i = i + 1;
        }
        V::Ignored
    }
}

} // verus!
