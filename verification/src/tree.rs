//! Trees of numbers, written out parent first.

use vstd::prelude::*;

use crate::counting::count;
use crate::lists::lemma_sum_elements;

verus! {

/// A number followed by what is below it, down to a depth.
pub open spec fn subtree(kids: spec_fn(usize) -> Seq<usize>, index: usize, depth: nat) -> Seq<usize>
    decreases depth, 1int, 0int,
{
    if depth == 0 {
        seq![index]
    } else {
        seq![index] + forest(kids, kids(index), (depth - 1) as nat)
    }
}

/// Some numbers, each followed by what is below it.
pub open spec fn forest(kids: spec_fn(usize) -> Seq<usize>, list: Seq<usize>, depth: nat) -> Seq<
    usize,
>
    decreases depth, 2int, list.len(),
{
    if list.len() == 0 {
        Seq::empty()
    } else {
        forest(kids, list.drop_last(), depth) + subtree(kids, list.last(), depth)
    }
}

/// `top` is the number itself or above it, at most `depth` steps.
pub open spec fn above(
    parent: spec_fn(usize) -> Option<usize>,
    top: usize,
    index: usize,
    depth: nat,
) -> bool
    decreases depth,
{
    top == index || (depth > 0 && (match parent(index) {
        Some(next) => above(parent, top, next, (depth - 1) as nat),
        None => false,
    }))
}

/// A forest of the numbers below a length: every number has at most one parent, on a lower
/// level than its own, and `kids` lists the children of each.
pub struct Family {
    pub len: nat,
    pub parent: spec_fn(usize) -> Option<usize>,
    pub level: spec_fn(usize) -> int,
    pub kids: spec_fn(usize) -> Seq<usize>,
}

impl Family {
    pub open spec fn well_formed(self) -> bool {
        &&& self.len <= usize::MAX
        &&& forall|i: usize| #![trigger (self.level)(i)] 0 <= (self.level)(i) <= 2
        &&& forall|i: usize|
            #![trigger (self.parent)(i)]
            i < self.len ==> match (self.parent)(i) {
                Some(p) => p < self.len && (self.level)(p) < (self.level)(i),
                None => true,
            }
        &&& forall|p: usize, c: usize|
            #![trigger (self.kids)(p).to_multiset().count(c)]
            (self.kids)(p).to_multiset().count(c) == (if c < self.len && (self.parent)(c) == Some(
                p,
            ) {
                1nat
            } else {
                0
            })
    }
}

/// What is above a number is on no higher level, and on a lower one if it is another number.
proof fn lemma_above_level(family: Family, top: usize, index: usize, depth: nat)
    requires
        family.well_formed(),
        index < family.len,
        above(family.parent, top, index, depth),
    ensures
        (family.level)(top) <= (family.level)(index),
        top != index ==> (family.level)(top) < (family.level)(index),
        top < family.len,
    decreases depth,
{
    if top != index {
        let next = (family.parent)(index)->0;
        lemma_above_level(family, top, next, (depth - 1) as nat);
    }
}

/// The child of `top` on the way up from a number.
spec fn toward(
    parent: spec_fn(usize) -> Option<usize>,
    top: usize,
    index: usize,
    depth: nat,
) -> usize
    decreases depth,
{
    if depth == 0 || parent(index) == Some(top) || parent(index) is None {
        index
    } else {
        toward(parent, top, parent(index)->0, (depth - 1) as nat)
    }
}

proof fn lemma_toward(family: Family, top: usize, index: usize, depth: nat)
    requires
        family.well_formed(),
        index < family.len,
        top != index,
        depth > 0,
        above(family.parent, top, index, depth),
    ensures
        ({
            let child = toward(family.parent, top, index, depth);
            &&& child < family.len
            &&& (family.parent)(child) == Some(top)
            &&& above(family.parent, child, index, (depth - 1) as nat)
        }),
    decreases depth,
{
    let next = (family.parent)(index)->0;
    if next != top {
        if depth == 1 {
            assert(above(family.parent, top, next, 0));
        }
        lemma_toward(family, top, next, (depth - 1) as nat);
    }
}

/// Of the children of a number, at most one is above another number.
proof fn lemma_toward_unique(
    family: Family,
    top: usize,
    left: usize,
    right: usize,
    index: usize,
    depth: nat,
)
    requires
        family.well_formed(),
        index < family.len,
        above(family.parent, left, index, depth),
        above(family.parent, right, index, depth),
        (family.parent)(left) == Some(top),
        (family.parent)(right) == Some(top),
    ensures
        left == right,
    decreases depth,
{
    lemma_above_level(family, left, index, depth);
    lemma_above_level(family, right, index, depth);
    if left != right {
        if left == index {
            lemma_above_level(family, right, top, (depth - 1) as nat);
        } else if right == index {
            lemma_above_level(family, left, top, (depth - 1) as nat);
        } else {
            lemma_toward_unique(
                family,
                top,
                left,
                right,
                (family.parent)(index)->0,
                (depth - 1) as nat,
            );
        }
    }
}

/// How many numbers of a list are above a number.
spec fn tops(family: Family, list: Seq<usize>, index: usize, depth: nat) -> nat
    decreases list.len(),
{
    if list.len() == 0 {
        0
    } else {
        tops(family, list.drop_last(), index, depth) + (if above(
            family.parent,
            list.last(),
            index,
            depth,
        ) {
            1nat
        } else {
            0
        })
    }
}

proof fn lemma_tops_none(family: Family, list: Seq<usize>, index: usize, depth: nat)
    requires
        forall|i: int|
            0 <= i < list.len() ==> !above(family.parent, #[trigger] list[i], index, depth),
    ensures
        tops(family, list, index, depth) == 0,
    decreases list.len(),
{
    if list.len() > 0 {
        assert forall|i: int| 0 <= i < list.drop_last().len() implies !above(
            family.parent,
            #[trigger] list.drop_last()[i],
            index,
            depth,
        ) by {
            assert(list[i] == list.drop_last()[i]);
        }
        lemma_tops_none(family, list.drop_last(), index, depth);
        assert(!above(family.parent, list[list.len() - 1], index, depth));
    }
}

/// Where one number of a list, which holds it once, and no other is above, there is one top.
proof fn lemma_tops_one(family: Family, list: Seq<usize>, top: usize, index: usize, depth: nat)
    requires
        list.to_multiset().count(top) == 1,
        above(family.parent, top, index, depth),
        forall|i: int|
            0 <= i < list.len() && above(family.parent, #[trigger] list[i], index, depth)
                ==> list[i] == top,
    ensures
        tops(family, list, index, depth) == 1,
    decreases list.len(),
{
    vstd::seq_lib::to_multiset_contains(list, top);
    let rest = list.drop_last();
    assert(list =~= rest.push(list.last()));
    vstd::seq_lib::to_multiset_build(rest, list.last());
    if list.last() == top {
        vstd::seq_lib::to_multiset_contains(rest, top);
        assert forall|i: int| 0 <= i < rest.len() implies !above(
            family.parent,
            #[trigger] rest[i],
            index,
            depth,
        ) by {
            assert(rest[i] == list[i]);
            if above(family.parent, list[i], index, depth) {
                assert(rest.contains(rest[i]));
            }
        }
        lemma_tops_none(family, rest, index, depth);
    } else {
        assert forall|i: int|
            0 <= i < rest.len() && above(
                family.parent,
                #[trigger] rest[i],
                index,
                depth,
            ) implies rest[i] == top by {
            assert(rest[i] == list[i]);
        }
        lemma_tops_one(family, rest, top, index, depth);
        if above(family.parent, list.last(), index, depth) {
            assert(list[list.len() - 1] == top);
        }
    }
}

/// A number occurs in a forest once for each number of the list that is above it.
proof fn lemma_forest_count(family: Family, list: Seq<usize>, index: usize, depth: nat)
    requires
        family.well_formed(),
        index < family.len,
    ensures
        forest(family.kids, list, depth).to_multiset().count(index) == tops(
            family,
            list,
            index,
            depth,
        ),
    decreases depth, 2int, list.len(),
{
    if list.len() == 0 {
        let none = forest(family.kids, list, depth);
        assert(none =~= Seq::empty());
        vstd::seq_lib::to_multiset_contains(none, index);
    } else {
        lemma_forest_count(family, list.drop_last(), index, depth);
        lemma_subtree_count(family, list.last(), index, depth);
        lemma_sum_elements(
            forest(family.kids, list.drop_last(), depth),
            subtree(family.kids, list.last(), depth),
        );
    }
}

/// A number occurs once in the subtree of each number above it, and in no other.
proof fn lemma_subtree_count(family: Family, top: usize, index: usize, depth: nat)
    requires
        family.well_formed(),
        index < family.len,
    ensures
        subtree(family.kids, top, depth).to_multiset().count(index) == (if above(
            family.parent,
            top,
            index,
            depth,
        ) {
            1nat
        } else {
            0
        }),
    decreases depth, 1int, 0int,
{
    let one = seq![top];
    assert(one =~= Seq::<usize>::empty().push(top));
    vstd::seq_lib::to_multiset_build(Seq::<usize>::empty(), top);
    vstd::seq_lib::to_multiset_contains(Seq::<usize>::empty(), index);
    if depth > 0 {
        let kids = (family.kids)(top);
        let below = (depth - 1) as nat;
        lemma_forest_count(family, kids, index, below);
        lemma_sum_elements(one, forest(family.kids, kids, below));
        assert forall|i: int| 0 <= i < kids.len() implies (#[trigger] kids[i]) < family.len
            && (family.parent)(kids[i]) == Some(top) by {
            assert(kids.contains(kids[i]));
            vstd::seq_lib::to_multiset_contains(kids, kids[i]);
            assert((family.kids)(top).to_multiset().count(kids[i]) > 0);
        }
        if top == index {
            assert forall|i: int| 0 <= i < kids.len() implies !above(
                family.parent,
                #[trigger] kids[i],
                index,
                below,
            ) by {
                if above(family.parent, kids[i], index, below) {
                    lemma_above_level(family, kids[i], index, below);
                }
            }
            lemma_tops_none(family, kids, index, below);
        } else if above(family.parent, top, index, depth) {
            lemma_toward(family, top, index, depth);
            let child = toward(family.parent, top, index, depth);
            assert((family.kids)(top).to_multiset().count(child) == 1);
            assert forall|i: int|
                0 <= i < kids.len() && above(
                    family.parent,
                    #[trigger] kids[i],
                    index,
                    below,
                ) implies kids[i] == child by {
                lemma_toward_unique(family, top, kids[i], child, index, below);
            }
            lemma_tops_one(family, kids, child, index, below);
        } else {
            assert forall|i: int| 0 <= i < kids.len() implies !above(
                family.parent,
                #[trigger] kids[i],
                index,
                below,
            ) by {
                if above(family.parent, kids[i], index, below) {
                    lemma_above_step(family, top, kids[i], index, below);
                }
            }
            lemma_tops_none(family, kids, index, below);
        }
    }
}

/// The parent of what is above a number is above it, one step farther.
proof fn lemma_above_step(family: Family, top: usize, child: usize, index: usize, depth: nat)
    requires
        above(family.parent, child, index, depth),
        (family.parent)(child) == Some(top),
    ensures
        above(family.parent, top, index, depth + 1),
    decreases depth,
{
    if child == index {
        assert(above(family.parent, top, top, depth));
    } else {
        lemma_above_step(
            family,
            top,
            child,
            (family.parent)(index)->0,
            (depth - 1) as nat,
        );
    }
}

/// The number at the top of the tree that a number belongs to.
spec fn root_of(parent: spec_fn(usize) -> Option<usize>, index: usize, depth: nat) -> usize
    decreases depth,
{
    if depth == 0 || parent(index) is None {
        index
    } else {
        root_of(parent, parent(index)->0, (depth - 1) as nat)
    }
}

proof fn lemma_root(family: Family, index: usize, depth: nat)
    requires
        family.well_formed(),
        index < family.len,
        (family.level)(index) <= depth,
    ensures
        ({
            let root = root_of(family.parent, index, depth);
            &&& root < family.len
            &&& (family.parent)(root) is None
            &&& above(family.parent, root, index, depth)
        }),
        forall|other: usize|
            #![trigger above(family.parent, other, index, depth)]
            above(family.parent, other, index, depth) && (family.parent)(other) is None ==> other
                == root_of(family.parent, index, depth),
    decreases depth,
{
    if let Some(next) = (family.parent)(index) {
        assert((family.level)(next) < (family.level)(index));
        assert(0 <= (family.level)(next));
        lemma_root(family, next, (depth - 1) as nat);
        assert forall|other: usize|
            #![trigger above(family.parent, other, index, depth)]
            above(family.parent, other, index, depth) && (family.parent)(
                other,
            ) is None implies other == root_of(family.parent, index, depth) by {
            if other != index {
                assert(above(family.parent, other, next, (depth - 1) as nat));
            }
        }
    }
}

/// The forest of the numbers without a parent holds every number exactly once.
pub proof fn lemma_forest_complete(family: Family, roots: Seq<usize>)
    requires
        family.well_formed(),
        forall|i: usize|
            #![trigger roots.to_multiset().count(i)]
            roots.to_multiset().count(i) == (if i < family.len && (family.parent)(i) is None {
                1nat
            } else {
                0
            }),
    ensures
        forall|i: usize|
            #![trigger forest(family.kids, roots, 2).to_multiset().count(i)]
            i < family.len ==> forest(family.kids, roots, 2).to_multiset().count(i) == 1,
{
    assert forall|i: usize|
        #![trigger forest(family.kids, roots, 2).to_multiset().count(i)]
        i < family.len implies forest(family.kids, roots, 2).to_multiset().count(i) == 1 by {
        assert(0 <= (family.level)(i) <= 2);
        lemma_root(family, i, 2);
        let root = root_of(family.parent, i, 2);
        assert(roots.to_multiset().count(root) == 1);
        assert forall|k: int|
            0 <= k < roots.len() && above(family.parent, #[trigger] roots[k], i, 2) implies roots[k]
            == root by {
            assert(roots.contains(roots[k]));
            vstd::seq_lib::to_multiset_contains(roots, roots[k]);
        }
        lemma_tops_one(family, roots, root, i, 2);
        lemma_forest_count(family, roots, i, 2);
    }
}

/// Everything in a forest comes from the list or is a child.
pub proof fn lemma_forest_members(family: Family, list: Seq<usize>, depth: nat)
    requires
        family.well_formed(),
        forall|i: int| 0 <= i < list.len() ==> (#[trigger] list[i]) < family.len,
    ensures
        forall|i: int|
            0 <= i < forest(family.kids, list, depth).len() ==> (#[trigger] forest(
                family.kids,
                list,
                depth,
            )[i]) < family.len,
    decreases depth, 2int, list.len(),
{
    if list.len() > 0 {
        let rest = list.drop_last();
        let top = list.last();
        assert forall|i: int| 0 <= i < rest.len() implies (#[trigger] rest[i]) < family.len by {
            assert(rest[i] == list[i]);
        }
        lemma_forest_members(family, rest, depth);
        assert(list[list.len() - 1] < family.len);
        if depth > 0 {
            let kids = (family.kids)(top);
            assert forall|i: int| 0 <= i < kids.len() implies (#[trigger] kids[i])
                < family.len by {
                assert(kids.contains(kids[i]));
                vstd::seq_lib::to_multiset_contains(kids, kids[i]);
                assert((family.kids)(top).to_multiset().count(kids[i]) > 0);
            }
            lemma_forest_members(family, kids, (depth - 1) as nat);
        }
        let left = forest(family.kids, rest, depth);
        let right = subtree(family.kids, top, depth);
        assert forall|i: int| 0 <= i < right.len() implies (#[trigger] right[i]) < family.len by {
            if i > 0 {
                assert(right[i] == forest(family.kids, (family.kids)(top), (depth - 1) as nat)[i
                    - 1]);
            }
        }
        let whole = forest(family.kids, list, depth);
        assert(whole == left + right);
        assert forall|i: int| 0 <= i < whole.len() implies (#[trigger] whole[i]) < family.len by {
            if i < left.len() {
                assert(whole[i] == left[i]);
            } else {
                assert(whole[i] == right[i - left.len()]);
            }
        }
    }
}

/// Writes a number and what is below it to the end of a list.
pub(crate) fn append_layout_subtree(
    index: usize,
    children: &Vec<Vec<usize>>,
    order: &mut Vec<usize>,
    Ghost(family): Ghost<Family>,
    Ghost(depth): Ghost<nat>,
)
    requires
        family.well_formed(),
        children.len() == family.len,
        index < family.len,
        forall|p: usize| p < children.len() ==> #[trigger] (family.kids)(p) == children@[p as int]@,
        (family.level)(index) + depth >= 2,
    ensures
        final(order)@ == old(order)@ + subtree(family.kids, index, depth),
    decreases depth,
{
    order.push(index);
    let ghost first = order@;
    let list = &children[index];
    assert((family.kids)(index) == list@);
    proof {
        assert forall|i: int| 0 <= i < list.len() implies (#[trigger] list@[i]) < family.len
            && (family.parent)(list@[i]) == Some(index) by {
            assert(list@.contains(list@[i]));
            vstd::seq_lib::to_multiset_contains(list@, list@[i]);
            assert((family.kids)(index).to_multiset().count(list@[i]) > 0);
        }
        if depth == 0 && list.len() > 0 {
            assert((family.parent)(list@[0]) == Some(index));
            assert((family.level)(index) < (family.level)(list@[0]));
        }
    }
    let mut next: usize = 0;
    while next < list.len()
        invariant
            next <= list.len(),
            family.well_formed(),
            children.len() == family.len,
            forall|p: usize|
                p < children.len() ==> #[trigger] (family.kids)(p) == children@[p as int]@,
            (family.level)(index) + depth >= 2,
            list.len() > 0 ==> depth > 0,
            forall|i: int|
                0 <= i < list.len() ==> (#[trigger] list@[i]) < family.len && (family.parent)(
                    list@[i],
                ) == Some(index),
            order@ == first + (if depth == 0 {
                Seq::empty()
            } else {
                forest(family.kids, list@.take(next as int), (depth - 1) as nat)
            }),
        decreases list.len() - next,
    {
        let child: usize = list[next];
        proof {
            assert(list@[next as int] < family.len);
            assert((family.level)(index) < (family.level)(child));
        }
        append_layout_subtree(
            child,
            children,
            order,
            Ghost(family),
            Ghost((depth - 1) as nat),
        );
        proof {
            let longer = list@.take(next as int + 1);
            assert(longer.drop_last() =~= list@.take(next as int));
            assert(longer.last() == child);
            assert(order@ =~= first + forest(family.kids, longer, (depth - 1) as nat));
        }
        next += 1;
    }
    proof {
        assert(list@.take(next as int) =~= list@);
        assert(order@ =~= old(order)@ + subtree(family.kids, index, depth));
    }
}

} // verus!
