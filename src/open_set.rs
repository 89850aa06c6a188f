//! A set of cell indices with O(1) uniform random removal and O(1) removal by
//! value: a dense array of the members and, for each possible value, its
//! position in that array.

use vstd::prelude::*;
use rand::rngs::StdRng;
use crate::rng::draw_index;

verus! {

/// Marks a value that is not a member.
const ABSENT: usize = usize::MAX;

/// A subset of `[0, capacity)`.
pub struct OpenSet {
    members: Vec<usize>,
    slot: Vec<usize>,
}

impl OpenSet {
    /// Values this set can hold lie in `[0, capacity())`.
    pub closed spec fn capacity(&self) -> nat {
        self.slot@.len()
    }

    /// Number of members.
    pub closed spec fn size(&self) -> nat {
        self.members@.len()
    }

    /// The members.
    pub closed spec fn view(&self) -> Set<usize> {
        Set::new(|x: usize| x < self.slot@.len() && self.slot@[x as int] < self.members@.len())
    }

    /// Every member has its position recorded, and every recorded position holds it.
    pub closed spec fn wf(&self) -> bool {
        &&& self.members@.len() <= self.slot@.len()
        &&& self.slot@.len() < usize::MAX
        &&& forall|i: int|
            0 <= i < self.members@.len() ==> {
                &&& #[trigger] self.members@[i] < self.slot@.len()
                &&& self.slot@[self.members@[i] as int] == i
            }
        &&& forall|x: int|
            0 <= x < self.slot@.len() && #[trigger] self.slot@[x] < self.members@.len()
                ==> self.members@[self.slot@[x] as int] == x
    }

    /// The set of all values in `[0, n)`.
    pub fn new_full(n: usize) -> (s: Self)
        requires
            n < usize::MAX,
        ensures
            s.wf(),
            s.capacity() == n,
            s.size() == n,
            s@ == Set::new(|x: usize| x < n),
    {
        let mut members: Vec<usize> = Vec::new();
        let mut slot: Vec<usize> = Vec::new();
        let mut i: usize = 0;
        while i < n
            invariant
                i <= n < usize::MAX,
                members@.len() == i,
                slot@.len() == i,
                forall|k: int| 0 <= k < i ==> #[trigger] members@[k] == k,
                forall|k: int| 0 <= k < i ==> #[trigger] slot@[k] == k,
            decreases n - i,
        {
            members.push(i);
            slot.push(i);
            i = i + 1;
        }
        let s = OpenSet { members, slot };
        assert(s@ =~= Set::new(|x: usize| x < n));
        s
    }

    /// Number of members.
    pub fn len(&self) -> (r: usize)
        requires
            self.wf(),
        ensures
            r == self.size(),
    {
        self.members.len()
    }

    /// An empty set has no members.
    pub proof fn lemma_size_zero(&self)
        requires
            self.wf(),
            self.size() == 0,
        ensures
            forall|x: usize| !#[trigger] self@.contains(x),
    {
    }

    /// Whether `x` is a member.
    pub fn contains(&self, x: usize) -> (r: bool)
        requires
            self.wf(),
        ensures
            r == self@.contains(x),
    {
        x < self.slot.len() && self.slot[x] < self.members.len()
    }

    /// Removes the member at position `pos` of the dense array by moving the
    /// last member into its place.
    fn remove_at(&mut self, pos: usize) -> (x: usize)
        requires
            old(self).wf(),
            pos < old(self).size(),
        ensures
            final(self).wf(),
            x == old(self).members@[pos as int],
            old(self)@.contains(x),
            final(self)@ == old(self)@.remove(x),
            final(self).size() == old(self).size() - 1,
            final(self).capacity() == old(self).capacity(),
    {
        let x = self.members[pos];
        let last: usize = self.members.len() - 1;
        let moved = self.members[last];
        self.members.set(pos, moved);
        self.slot.set(moved, pos);
        self.members.pop();
        self.slot.set(x, ABSENT);
        proof {
            let o = old(self);
            assert(o.slot@[x as int] == pos);
            assert forall|y: usize| #[trigger] self@.contains(y) == o@.remove(x).contains(y) by {
                if y < self.slot@.len() && y != x && y != moved {
                    assert(self.slot@[y as int] == o.slot@[y as int]);
                    if o.slot@[y as int] < o.members@.len() {
                        assert(o.members@[o.slot@[y as int] as int] == y);
                    }
                }
                if y == moved && y != x {
                    assert(o.slot@[moved as int] == last);
                }
            }
            assert(self@ =~= o@.remove(x));
            assert forall|i: int| 0 <= i < self.members@.len() implies {
                &&& #[trigger] self.members@[i] < self.slot@.len()
                &&& self.slot@[self.members@[i] as int] == i
            } by {
                if i != pos {
                    assert(self.members@[i] == o.members@[i]);
                    assert(o.slot@[o.members@[i] as int] == i);
                }
            }
            assert forall|y: int|
                0 <= y < self.slot@.len() && #[trigger] self.slot@[y] < self.members@.len()
                implies self.members@[self.slot@[y] as int] == y by {
                if y != x && y != moved {
                    assert(o.members@[o.slot@[y] as int] == y);
                    if o.slot@[y] == last {
                        assert(o.members@[last as int] == moved);
                    }
                }
            }
        }
        x
    }

    /// Removes and returns a member drawn uniformly at random; `None` when empty.
    pub fn remove_random(&mut self, rng: &mut StdRng) -> (r: Option<usize>)
        requires
            old(self).wf(),
        ensures
            final(self).wf(),
            final(self).capacity() == old(self).capacity(),
            old(self).size() == 0 ==> r is None && final(self)@ == old(self)@
                && final(self).size() == 0,
            old(self).size() > 0 ==> r is Some,
            r matches Some(x) ==> x < old(self).capacity() && old(self)@.contains(x) && final(self)@
                == old(self)@.remove(x)
                && final(self).size() == old(self).size() - 1,
    {
        if self.members.len() == 0 {
            return None;
        }
        let pos = draw_index(rng, self.members.len());
        Some(self.remove_at(pos))
    }

    /// Removes `x` if it is a member and says whether it was.
    pub fn remove_value(&mut self, x: usize) -> (r: bool)
        requires
            old(self).wf(),
        ensures
            final(self).wf(),
            final(self).capacity() == old(self).capacity(),
            r == old(self)@.contains(x),
            final(self)@ == old(self)@.remove(x),
            final(self).size() == if r {
                old(self).size() - 1
            } else {
                old(self).size() as int
            },
    {
        if x < self.slot.len() && self.slot[x] < self.members.len() {
            let pos = self.slot[x];
            let y = self.remove_at(pos);
            assert(y == x);
            true
        } else {
            assert(self@ =~= old(self)@.remove(x));
            false
        }
    }
}

/// Whether `states` is a run of removals: each `outs[i]` was a member of
/// `states[i]`, and `states[i + 1]` is `states[i]` without it, one smaller.
pub open spec fn removal_run(states: Seq<OpenSet>, outs: Seq<usize>) -> bool {
    &&& states.len() == outs.len() + 1
    &&& forall|i: int|
        0 <= i < outs.len() ==> {
            &&& #[trigger] states[i]@.contains(outs[i])
            &&& states[i + 1]@ == states[i]@.remove(outs[i])
            &&& states[i + 1].size() == states[i].size() - 1
        }
}

/// A value removed at step `i` is absent from every later state.
proof fn lemma_removed_stays_out(states: Seq<OpenSet>, outs: Seq<usize>, i: int, j: int)
    requires
        removal_run(states, outs),
        0 <= i < j <= outs.len(),
    ensures
        !states[j]@.contains(outs[i]),
    decreases j - i,
{
    if j > i + 1 {
        lemma_removed_stays_out(states, outs, i, j - 1);
        assert(states[j - 1]@.contains(outs[j - 1]));
    } else {
        assert(states[i]@.contains(outs[i]));
    }
}

/// After `k` removals the size is exactly `k` less than at the start, and no
/// value was removed twice.
pub proof fn lemma_removal_run(states: Seq<OpenSet>, outs: Seq<usize>)
    requires
        removal_run(states, outs),
    ensures
        states.last().size() == states[0].size() - outs.len(),
        forall|i: int, j: int| 0 <= i < j < outs.len() ==> outs[i] != outs[j],
    decreases outs.len(),
{
    if outs.len() > 0 {
        let k = outs.len() - 1;
        let (s0, o0) = (states.drop_last(), outs.drop_last());
        assert forall|i: int| 0 <= i < o0.len() implies {
            &&& #[trigger] s0[i]@.contains(o0[i])
            &&& s0[i + 1]@ == s0[i]@.remove(o0[i])
            &&& s0[i + 1].size() == s0[i].size() - 1
        } by {
            assert(states[i]@.contains(outs[i]));
        }
        lemma_removal_run(s0, o0);
        assert(states[k]@.contains(outs[k]));
        assert forall|i: int, j: int| 0 <= i < j < outs.len() implies outs[i] != outs[j] by {
            if j == k {
                lemma_removed_stays_out(states, outs, i, k);
            } else {
                assert(o0[i] == outs[i] && o0[j] == outs[j]);
            }
        }
    }
}

} // verus!
