//! Groups of numbers that are merged two at a time.

use vstd::prelude::*;

verus! {

/// Divides the numbers below a length into groups; each group has one of its members as
/// its root.
pub struct Groups {
    parents: Vec<usize>,
    roots: Ghost<Seq<int>>,
    ranks: Ghost<Seq<nat>>,
    bound: Ghost<nat>,
}

impl View for Groups {
    type V = Seq<int>;

    /// The root of each number's group.
    closed spec fn view(&self) -> Seq<int> {
        self.roots@
    }
}

impl Groups {
    pub closed spec fn well_formed(&self) -> bool {
        &&& self.roots@.len() == self.parents.len()
        &&& self.ranks@.len() == self.parents.len()
        &&& forall|i: int|
            0 <= i < self.parents.len() ==> {
                let parent = #[trigger] self.parents@[i];
                &&& parent < self.parents.len()
                &&& self.roots@[parent as int] == self.roots@[i]
                &&& parent == i ==> self.roots@[i] == i
                &&& parent != i ==> self.ranks@[i] < self.ranks@[parent as int]
                &&& self.ranks@[i] <= self.bound@
                &&& 0 <= self.roots@[i] < self.parents.len()
                &&& self.roots@[self.roots@[i]] == self.roots@[i]
            }
    }

    /// Every number in a group of its own.
    pub fn new(len: usize) -> (result: Groups)
        ensures
            result.well_formed(),
            result@.len() == len,
            forall|i: int| 0 <= i < len ==> #[trigger] result@[i] == i,
    {
        let mut parents: Vec<usize> = Vec::new();
        let mut index: usize = 0;
        while index < len
            invariant
                index <= len,
                parents.len() == index,
                forall|i: int| 0 <= i < index ==> #[trigger] parents@[i] == i,
            decreases len - index,
        {
            parents.push(index);
            index += 1;
        }
        Groups {
            parents,
            roots: Ghost(Seq::new(len as nat, |i: int| i)),
            ranks: Ghost(Seq::new(len as nat, |i: int| 0nat)),
            bound: Ghost(0),
        }
    }

    /// The root of a number's group.
    pub fn find(&mut self, index: usize) -> (result: usize)
        requires
            old(self).well_formed(),
            index < old(self)@.len(),
        ensures
            final(self).well_formed(),
            final(self)@ == old(self)@,
            result == old(self)@[index as int],
            result < old(self)@.len(),
            final(self).is_root(result as int),
            forall|i: int| #[trigger] old(self).is_root(i) ==> final(self).is_root(i),
    {
        let mut at: usize = index;
        while self.parents[at] != at
            invariant
                self.well_formed(),
                at < self.parents.len(),
                self@ == old(self)@,
                self.parents.len() == old(self).parents.len(),
                self@[at as int] == old(self)@[index as int],
                forall|i: int| #[trigger] old(self).is_root(i) ==> self.is_root(i),
            decreases self.bound@ - self.ranks@[at as int],
        {
            let ghost before = self.parents@;
            let parent: usize = self.parents[at];
            assert(before[parent as int] < before.len());
            let grandparent: usize = self.parents[parent];
            assert(before[grandparent as int] < before.len());
            self.parents.set(at, grandparent);
            assert(self.well_formed()) by {
                assert forall|i: int| 0 <= i < self.parents.len() implies ({
                    let parent = #[trigger] self.parents@[i];
                    &&& parent < self.parents.len()
                    &&& self.roots@[parent as int] == self.roots@[i]
                    &&& parent == i ==> self.roots@[i] == i
                    &&& parent != i ==> self.ranks@[i] < self.ranks@[parent as int]
                    &&& self.ranks@[i] <= self.bound@
                    &&& 0 <= self.roots@[i] < self.parents.len()
                    &&& self.roots@[self.roots@[i]] == self.roots@[i]
                }) by {
                    assert(before[i] < before.len());
                }
            }
            at = grandparent;
        }
        at
    }

    /// A root is a number of its own group.
    pub proof fn lemma_roots(&self)
        requires
            self.well_formed(),
        ensures
            forall|i: int|
                0 <= i < self@.len() ==> 0 <= #[trigger] self@[i] < self@.len()
                    && self@[self@[i]] == self@[i],
    {
        assert forall|i: int| 0 <= i < self@.len() implies 0 <= #[trigger] self@[i] < self@.len()
            && self@[self@[i]] == self@[i] by {
            assert(self.parents@[i] < self.parents.len());
        }
    }

    /// The number is its own parent.
    pub closed spec fn is_root(&self, index: int) -> bool {
        0 <= index < self.parents.len() && self.parents@[index] == index
    }

    /// Merges the groups of two numbers; the root of the left one becomes that of both.
    pub fn union(&mut self, left: usize, right: usize)
        requires
            old(self).well_formed(),
            left < old(self)@.len(),
            right < old(self)@.len(),
        ensures
            final(self).well_formed(),
            final(self)@.len() == old(self)@.len(),
            forall|i: int|
                0 <= i < old(self)@.len() ==> #[trigger] final(self)@[i] == (if old(self)@[i]
                    == old(self)@[right as int] {
                    old(self)@[left as int]
                } else {
                    old(self)@[i]
                }),
    {
        let top: usize = self.find(left);
        let other: usize = self.find(right);
        if top != other {
            let ghost before = *self;
            assert(before.parents@[top as int] < before.parents.len());
            assert(before.parents@[other as int] < before.parents.len());
            self.parents.set(other, top);
            let ghost roots = Seq::new(
                before.roots@.len(),
                |i: int|
                    if before.roots@[i] == other {
                        top as int
                    } else {
                        before.roots@[i]
                    },
            );
            let ghost raised = if before.ranks@[top as int] > before.ranks@[other as int] {
                before.ranks@[top as int]
            } else {
                before.ranks@[other as int] + 1
            };
            self.roots = Ghost(roots);
            self.ranks = Ghost(before.ranks@.update(top as int, raised));
            self.bound = Ghost(before.bound@ + 1);
            assert(before.is_root(top as int));
            assert forall|i: int| 0 <= i < self.parents.len() implies ({
                let parent = #[trigger] self.parents@[i];
                &&& parent < self.parents.len()
                &&& self.roots@[parent as int] == self.roots@[i]
                &&& parent == i ==> self.roots@[i] == i
                &&& parent != i ==> self.ranks@[i] < self.ranks@[parent as int]
                &&& self.ranks@[i] <= self.bound@
                &&& 0 <= self.roots@[i] < self.parents.len()
                &&& self.roots@[self.roots@[i]] == self.roots@[i]
            }) by {
                assert(before.parents@[i] < before.parents.len());
                assert(before.parents@[top as int] < before.parents.len());
                assert(before.parents@[other as int] < before.parents.len());
                assert(before.parents@[before.roots@[i]] < before.parents.len());
            }
        }
    }
}

} // verus!
