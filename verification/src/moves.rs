//! The agent's per-turn decision: a mapping from coordinates to direction
//! codes (0 means "stay"). Entries are kept in insertion order, but the
//! engine consumes the encoded line as an unordered set of (coordinate,
//! direction) facts, so no ordering is imposed or guaranteed.

use vstd::prelude::*;

use crate::grid::Location;

verus! {

/// A set of move commands, at most one per coordinate when built through
/// [`MoveSet::insert`].
pub struct MoveSet {
    pub entries: Vec<(Location, u8)>,
}

impl View for MoveSet {
    type V = Seq<(Location, u8)>;

    open spec fn view(&self) -> Seq<(Location, u8)> {
        self.entries@
    }
}

impl MoveSet {
    /// Mapping invariant: each coordinate appears at most once.
    pub open spec fn wf(self) -> bool {
        forall|i: int, j: int|
            0 <= i < j < self@.len() ==> (#[trigger] self@[i]).0 != (#[trigger] self@[j]).0
    }

    /// An empty move set: no tile issues a command this turn.
    pub fn new() -> (r: MoveSet)
        ensures
            r@ == Seq::<(Location, u8)>::empty(),
            r.wf(),
    {
        MoveSet { entries: Vec::new() }
    }

    pub fn len(&self) -> (r: usize)
        ensures
            r == self@.len(),
    {
        self.entries.len()
    }

    /// Entry by position, for callers that walk the set.
    pub fn entry_at(&self, i: usize) -> (r: (Location, u8))
        requires
            i < self@.len(),
        ensures
            r == self@[i as int],
    {
        self.entries[i]
    }

    /// Maps a coordinate to a direction: overwrites the direction if the
    /// coordinate already has one, appends the entry otherwise.
    pub fn insert(&mut self, loc: Location, dir: u8)
        requires
            old(self).wf(),
        ensures
            final(self).wf(),
            (forall|k: int| 0 <= k < old(self)@.len() ==> (#[trigger] old(self)@[k]).0 != loc)
                ==> final(self)@ == old(self)@.push((loc, dir)),
            forall|k: int|
                0 <= k < old(self)@.len() && (#[trigger] old(self)@[k]).0 == loc
                    ==> final(self)@ == old(self)@.update(k, (loc, dir)),
    {
        let mut i: usize = 0;
        while i < self.entries.len()
            invariant
                i <= self@.len(),
                old(self).wf(),
                *self == *old(self),
                forall|k: int| 0 <= k < i ==> (#[trigger] self@[k]).0 != loc,
            decreases self@.len() - i,
        {
            if self.entries[i].0 == loc {
                self.entries[i] = (loc, dir);
                proof {
                    assert forall|a: int, b: int|
                        0 <= a < b < self@.len() implies (#[trigger] self@[a]).0 != (
                    #[trigger] self@[b]).0 by {
                        assert(old(self)@[a].0 != old(self)@[b].0);
                    }
                    assert forall|k: int|
                        0 <= k < old(self)@.len() && (#[trigger] old(self)@[k]).0
                            == loc implies self@ == old(self)@.update(k, (loc, dir)) by {
                        if k < i as int {
                            assert(false);
                        } else if k > i as int {
                            assert(old(self)@[i as int].0 != old(self)@[k].0);
                        } else {
                            assert(self@ =~= old(self)@.update(k, (loc, dir)));
                        }
                    }
                }
                return ;
            }
            i += 1;
        }
        self.entries.push((loc, dir));
        proof {
            assert forall|a: int, b: int|
                0 <= a < b < self@.len() implies (#[trigger] self@[a]).0 != (
            #[trigger] self@[b]).0 by {
                if b < old(self)@.len() {
                    assert(old(self)@[a].0 != old(self)@[b].0);
                } else {
                    assert(self@[a] == old(self)@[a]);
                }
            }
        }
    }
}

} // verus!
