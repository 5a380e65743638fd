//! Which cells of a grid are connected to which.

use std::collections::VecDeque;

use vstd::prelude::*;

use crate::counting::{count, lemma_count_update};
use crate::grid::{cell, cell_index, in_grid, lemma_cell_bounds, lemma_cell_injective};
use crate::pixel::{all_inside, MaskPixel};

verus! {

/// Two different cells that share an edge or, where corners count, a corner.
pub open spec fn adjacent(a: (int, int), b: (int, int), corners: bool) -> bool {
    let dx = a.0 - b.0;
    let dy = a.1 - b.1;
    &&& -1 <= dx <= 1
    &&& -1 <= dy <= 1
    &&& a != b
    &&& corners || dx == 0 || dy == 0
}

/// A region of a grid: the cells that can be entered, and those of them to start from.
pub struct Terrain {
    pub width: int,
    pub height: int,
    pub open: spec_fn((int, int)) -> bool,
    pub seed: spec_fn((int, int)) -> bool,
    pub corners: bool,
}

impl Terrain {
    pub open spec fn enterable(self, at: (int, int)) -> bool {
        in_grid(at.0, at.1, self.width, self.height) && (self.open)(at)
    }

    /// A walk from a start through cells that can be entered.
    pub open spec fn is_walk(self, walk: Seq<(int, int)>) -> bool {
        &&& walk.len() > 0
        &&& (self.seed)(walk[0])
        &&& forall|i: int| 0 <= i < walk.len() ==> self.enterable(#[trigger] walk[i])
        &&& forall|i: int|
            #![trigger walk[i]]
            0 < i < walk.len() ==> adjacent(walk[i - 1], walk[i], self.corners)
    }

    /// Some walk from a start ends at the cell.
    pub open spec fn reached(self, at: (int, int)) -> bool {
        exists|walk: Seq<(int, int)>| #[trigger] self.is_walk(walk) && walk.last() == at
    }
}

/// A start that can be entered is reached.
proof fn lemma_seed_reached(terrain: Terrain, at: (int, int))
    requires
        terrain.enterable(at),
        (terrain.seed)(at),
    ensures
        terrain.reached(at),
{
    let walk = seq![at];
    assert(terrain.is_walk(walk));
    assert(walk.last() == at);
}

/// A neighbour of a reached cell is reached, if it can be entered.
proof fn lemma_step_reached(terrain: Terrain, from: (int, int), to: (int, int))
    requires
        terrain.reached(from),
        terrain.enterable(to),
        adjacent(from, to, terrain.corners),
    ensures
        terrain.reached(to),
{
    let walk = choose|walk: Seq<(int, int)>| #[trigger]
        terrain.is_walk(walk) && walk.last() == from;
    let longer = walk.push(to);
    assert forall|i: int| 0 <= i < longer.len() implies terrain.enterable(
        #[trigger] longer[i],
    ) by {
        if i < walk.len() {
            assert(terrain.enterable(walk[i]));
        }
    }
    assert forall|i: int| #![trigger longer[i]] 0 < i < longer.len() implies adjacent(
        longer[i - 1],
        longer[i],
        terrain.corners,
    ) by {
        if i < walk.len() {
            assert(adjacent(walk[i - 1], walk[i], terrain.corners));
        }
    }
    assert(longer[0] == walk[0]);
    assert(terrain.is_walk(longer));
    assert(longer.last() == to);
}

/// The cell is marked.
pub open spec fn marked(marks: Seq<bool>, at: (int, int), width: int) -> bool {
    marks[cell(at.0, at.1, width)]
}

/// What is marked is reached.
spec fn sound(terrain: Terrain, marks: Seq<bool>) -> bool {
    forall|x: int, y: int|
        in_grid(x, y, terrain.width, terrain.height) && #[trigger] marked(
            marks,
            (x, y),
            terrain.width,
        ) ==> terrain.enterable((x, y)) && terrain.reached((x, y))
}

/// Every start that can be entered is marked.
spec fn seeded(terrain: Terrain, marks: Seq<bool>) -> bool {
    forall|x: int, y: int| #[trigger]
        terrain.enterable((x, y)) && (terrain.seed)((x, y)) ==> marked(
            marks,
            (x, y),
            terrain.width,
        )
}

/// Every neighbour of the cell that can be entered is marked.
spec fn surrounded(terrain: Terrain, marks: Seq<bool>, at: (int, int)) -> bool {
    forall|x: int, y: int| #[trigger]
        terrain.enterable((x, y)) && adjacent(at, (x, y), terrain.corners) ==> marked(
            marks,
            (x, y),
            terrain.width,
        )
}

/// Where the starts are marked and no marked cell has an unmarked neighbour, everything
/// reached is marked.
proof fn lemma_closed_complete(terrain: Terrain, marks: Seq<bool>, walk: Seq<(int, int)>)
    requires
        seeded(terrain, marks),
        forall|x: int, y: int|
            in_grid(x, y, terrain.width, terrain.height) && #[trigger] marked(
                marks,
                (x, y),
                terrain.width,
            ) ==> surrounded(terrain, marks, (x, y)),
        terrain.is_walk(walk),
    ensures
        marked(marks, walk.last(), terrain.width),
    decreases walk.len(),
{
    let at = walk.last();
    assert(terrain.enterable(at));
    assert(terrain.enterable((at.0, at.1)));
    if walk.len() == 1 {
        assert(walk[0] == at);
    } else {
        let shorter = walk.drop_last();
        assert forall|i: int| #![trigger shorter[i]] 0 < i < shorter.len() implies adjacent(
            shorter[i - 1],
            shorter[i],
            terrain.corners,
        ) by {
            assert(adjacent(walk[i - 1], walk[i], terrain.corners));
        }
        assert(shorter[0] == walk[0]);
        assert(terrain.is_walk(shorter));
        lemma_closed_complete(terrain, marks, shorter);
        let from = shorter.last();
        assert(walk[walk.len() - 2] == from);
        assert(terrain.enterable(from));
        assert(marked(marks, (from.0, from.1), terrain.width));
        assert(adjacent(walk[walk.len() - 2], walk[walk.len() - 1], terrain.corners));
    }
}

/// The cells of a grid that can be entered: those of one kind, or those of every other kind.
#[derive(Clone, Copy)]
pub struct Passage {
    pub kind: usize,
    pub within: bool,
}

pub open spec fn passable(
    kinds: Seq<usize>,
    passage: Passage,
    width: int,
) -> spec_fn((int, int)) -> bool {
    |at: (int, int)| (kinds[cell(at.0, at.1, width)] == passage.kind) == passage.within
}

/// The queue of a flood holds marked cells only.
spec fn queued(terrain: Terrain, marks: Seq<bool>, queue: Seq<(u32, u32)>) -> bool {
    forall|i: int|
        0 <= i < queue.len() ==> {
            let at = #[trigger] queue[i];
            &&& in_grid(at.0 as int, at.1 as int, terrain.width, terrain.height)
            &&& marked(marks, (at.0 as int, at.1 as int), terrain.width)
        }
}

/// The cell still waits in the queue.
spec fn waiting(queue: Seq<(u32, u32)>, at: (int, int)) -> bool {
    exists|i: int|
        0 <= i < queue.len() && (#[trigger] queue[i]).0 as int == at.0 && queue[i].1 as int == at.1
}

spec fn progressed(terrain: Terrain, marks: Seq<bool>, queue: Seq<(u32, u32)>) -> bool {
    forall|x: int, y: int|
        in_grid(x, y, terrain.width, terrain.height) && #[trigger] marked(
            marks,
            (x, y),
            terrain.width,
        ) ==> waiting(queue, (x, y)) || surrounded(terrain, marks, (x, y))
}

/// How many cells are not marked yet.
spec fn unmarked(marks: Seq<bool>) -> nat {
    count(marks.map_values(|mark: bool| !mark))
}

spec fn grows(before: Seq<bool>, after: Seq<bool>) -> bool {
    before.len() == after.len() && forall|i: int|
        0 <= i < before.len() && #[trigger] before[i] ==> after[i]
}

/// Marks a cell and queues it, if it can be entered and is not marked yet.
fn visit(
    marks: &mut Vec<bool>,
    queue: &mut VecDeque<(u32, u32)>,
    kinds: &Vec<usize>,
    passage: Passage,
    x: u32,
    y: u32,
    width: u32,
    height: u32,
)
    requires
        in_grid(x as int, y as int, width as int, height as int),
        kinds.len() == width * height,
        old(marks).len() == kinds.len(),
    ensures
        final(marks).len() == old(marks).len(),
        ({
            let at = cell(x as int, y as int, width as int);
            if !old(marks)@[at] && passable(kinds@, passage, width as int)((x as int, y as int)) {
                &&& final(marks)@ == old(marks)@.update(at, true)
                &&& final(queue)@ == old(queue)@.push((x, y))
            } else {
                &&& final(marks)@ == old(marks)@
                &&& final(queue)@ == old(queue)@
            }
        }),
{
    let index: usize = cell_index(x, y, width, height, kinds.len());
    if !marks[index] && (kinds[index] == passage.kind) == passage.within {
        marks.set(index, true);
        queue.push_back((x, y));
    }
}

/// What one visit does to a flood.
proof fn lemma_visit(
    terrain: Terrain,
    before: Seq<bool>,
    after: Seq<bool>,
    from: Seq<(u32, u32)>,
    to: Seq<(u32, u32)>,
    x: u32,
    y: u32,
)
    requires
        terrain.width >= 0,
        in_grid(x as int, y as int, terrain.width, terrain.height),
        before.len() == terrain.width * terrain.height,
        sound(terrain, before),
        queued(terrain, before, from),
        terrain.enterable((x as int, y as int)) ==> terrain.reached((x as int, y as int)),
        ({
            let at = cell(x as int, y as int, terrain.width);
            if !before[at] && (terrain.open)((x as int, y as int)) {
                &&& after == before.update(at, true)
                &&& to == from.push((x, y))
            } else {
                &&& after == before
                &&& to == from
            }
        }),
    ensures
        after.len() == before.len(),
        sound(terrain, after),
        queued(terrain, after, to),
        grows(before, after),
        terrain.enterable((x as int, y as int)) ==> marked(
            after,
            (x as int, y as int),
            terrain.width,
        ),
        forall|u: int, v: int|
            in_grid(u, v, terrain.width, terrain.height) && #[trigger] marked(
                after,
                (u, v),
                terrain.width,
            ) && !marked(before, (u, v), terrain.width) ==> waiting(to, (u, v)),
        forall|at: (int, int)| #[trigger] waiting(from, at) ==> waiting(to, at),
        unmarked(after) < unmarked(before) || (after == before && to == from),
{
    let at = cell(x as int, y as int, terrain.width);
    lemma_cell_bounds(x as int, y as int, terrain.width, terrain.height);
    if !before[at] && (terrain.open)((x as int, y as int)) {
        let flags = before.map_values(|mark: bool| !mark);
        assert(after.map_values(|mark: bool| !mark) =~= flags.update(at, false));
        lemma_count_update(flags, at, false);
        assert forall|u: int, v: int|
            in_grid(u, v, terrain.width, terrain.height) && #[trigger] marked(
                after,
                (u, v),
                terrain.width,
            ) && !marked(before, (u, v), terrain.width) implies waiting(to, (u, v)) by {
            lemma_cell_bounds(u, v, terrain.width, terrain.height);
            assert(cell(u, v, terrain.width) == at);
            lemma_cell_injective(u, v, x as int, y as int, terrain.width);
            assert(to[from.len() as int] == (x, y));
        }
        assert forall|u: int, v: int|
            in_grid(u, v, terrain.width, terrain.height) && #[trigger] marked(
                after,
                (u, v),
                terrain.width,
            ) implies terrain.enterable((u, v)) && terrain.reached((u, v)) by {
            lemma_cell_bounds(u, v, terrain.width, terrain.height);
            if cell(u, v, terrain.width) == at {
                lemma_cell_injective(u, v, x as int, y as int, terrain.width);
            } else {
                assert(marked(before, (u, v), terrain.width));
            }
        }
        assert forall|w: (int, int)| #[trigger] waiting(from, w) implies waiting(to, w) by {
            let i = choose|i: int|
                0 <= i < from.len() && (#[trigger] from[i]).0 as int == w.0 && from[i].1 as int
                    == w.1;
            assert(to[i] == from[i]);
        }
        assert forall|i: int| 0 <= i < to.len() implies ({
            let w = #[trigger] to[i];
            &&& in_grid(w.0 as int, w.1 as int, terrain.width, terrain.height)
            &&& marked(after, (w.0 as int, w.1 as int), terrain.width)
        }) by {
            if i < from.len() {
                let w = from[i];
                lemma_cell_bounds(w.0 as int, w.1 as int, terrain.width, terrain.height);
            }
        }
    }
}

/// Marks everything that is connected to the marked cells of the queue.
fn spread(
    marks: &mut Vec<bool>,
    queue: &mut VecDeque<(u32, u32)>,
    kinds: &Vec<usize>,
    passage: Passage,
    corners: bool,
    width: u32,
    height: u32,
    Ghost(terrain): Ghost<Terrain>,
)
    requires
        kinds.len() == width * height,
        old(marks).len() == kinds.len(),
        terrain.width == width,
        terrain.height == height,
        terrain.open == passable(kinds@, passage, width as int),
        terrain.corners == corners,
        sound(terrain, old(marks)@),
        seeded(terrain, old(marks)@),
        queued(terrain, old(marks)@, old(queue)@),
        progressed(terrain, old(marks)@, old(queue)@),
    ensures
        final(marks).len() == kinds.len(),
        forall|x: int, y: int|
            in_grid(x, y, width as int, height as int) ==> #[trigger] marked(
                final(marks)@,
                (x, y),
                width as int,
            ) == terrain.reached((x, y)),
{
    while queue.len() > 0
        invariant
            kinds.len() == width * height,
            marks.len() == kinds.len(),
            terrain.width == width,
            terrain.height == height,
            terrain.open == passable(kinds@, passage, width as int),
            terrain.corners == corners,
            sound(terrain, marks@),
            seeded(terrain, marks@),
            queued(terrain, marks@, queue@),
            progressed(terrain, marks@, queue@),
        decreases unmarked(marks@), queue@.len(),
    {
        let ghost first = marks@;
        let ghost whole = queue@;
        if let Some((x, y)) = queue.pop_front() {
            let ghost rest = queue@;
            let ghost at = (x as int, y as int);
            proof {
                assert(whole[0] == (x, y));
                assert forall|i: int| 0 <= i < rest.len() implies ({
                    let w = #[trigger] rest[i];
                    &&& in_grid(w.0 as int, w.1 as int, terrain.width, terrain.height)
                    &&& marked(first, (w.0 as int, w.1 as int), terrain.width)
                }) by {
                    assert(rest[i] == whole[i + 1]);
                }
            }
            let left: u32 = if x > 0 {
                x - 1
            } else {
                x
            };
            let right: u32 = if x + 1 < width {
                x + 1
            } else {
                x
            };
            let bottom: u32 = if y + 1 < height {
                y + 1
            } else {
                y
            };
            let mut v: u32 = if y > 0 {
                y - 1
            } else {
                y
            };
            while v <= bottom
                invariant
                    in_grid(x as int, y as int, width as int, height as int),
                    at == (x as int, y as int),
                    left == (if x > 0 { x - 1 } else { x as int }),
                    right == (if x + 1 < width { x + 1 } else { x as int }),
                    bottom == (if y + 1 < height { y + 1 } else { y as int }),
                    (if y > 0 { y - 1 } else { y as int }) <= v <= bottom + 1,
                    kinds.len() == width * height,
                    terrain.width == width,
                    terrain.height == height,
                    terrain.open == passable(kinds@, passage, width as int),
                    terrain.corners == corners,
                    spreading(terrain, first, rest, marks@, queue@),
                    marked(first, at, width as int),
                    terrain.reached(at),
                    forall|a: int, b: int| #[trigger]
                        terrain.enterable((a, b)) && adjacent(at, (a, b), corners) && b < v
                            ==> marked(marks@, (a, b), width as int),
                decreases bottom + 1 - v,
            {
                let mut u: u32 = left;
                while u <= right
                    invariant
                        in_grid(x as int, y as int, width as int, height as int),
                        at == (x as int, y as int),
                        left == (if x > 0 { x - 1 } else { x as int }),
                        right == (if x + 1 < width { x + 1 } else { x as int }),
                        bottom == (if y + 1 < height { y + 1 } else { y as int }),
                        (if y > 0 { y - 1 } else { y as int }) <= v <= bottom,
                        left <= u <= right + 1,
                        kinds.len() == width * height,
                        terrain.width == width,
                        terrain.height == height,
                        terrain.open == passable(kinds@, passage, width as int),
                        terrain.corners == corners,
                        spreading(terrain, first, rest, marks@, queue@),
                        marked(first, at, width as int),
                        terrain.reached(at),
                        forall|a: int, b: int| #[trigger]
                            terrain.enterable((a, b)) && adjacent(at, (a, b), corners) && (b < v
                                || (b == v && a < u)) ==> marked(marks@, (a, b), width as int),
                    decreases right + 1 - u,
                {
                    if (corners || u == x || v == y) && !(u == x && v == y) {
                        let ghost before = marks@;
                        let ghost from = queue@;
                        visit(marks, queue, kinds, passage, u, v, width, height);
                        proof {
                            let next = (u as int, v as int);
                            assert(adjacent(at, next, corners));
                            if terrain.enterable(next) {
                                lemma_step_reached(terrain, at, next);
                            }
                            lemma_visit(terrain, before, marks@, from, queue@, u, v);
                            lemma_spreading_step(
                                terrain,
                                first,
                                rest,
                                before,
                                from,
                                marks@,
                                queue@,
                            );
                            assert forall|a: int, b: int| #[trigger]
                                terrain.enterable((a, b)) && adjacent(at, (a, b), corners) && (b < v
                                    || (b == v && a < u + 1)) implies marked(
                                marks@,
                                (a, b),
                                width as int,
                            ) by {
                                lemma_cell_bounds(a, b, width as int, height as int);
                            }
                        }
                    }
                    u += 1;
                }
                v += 1;
            }
            proof {
                assert(surrounded(terrain, marks@, at));
                lemma_spreading_done(terrain, first, whole, rest, marks@, queue@, (x, y));
            }
        }
    }
    proof {
        assert forall|x: int, y: int| in_grid(x, y, width as int, height as int) implies (
        #[trigger] marked(marks@, (x, y), width as int)) == terrain.reached((x, y)) by {
            if terrain.reached((x, y)) {
                let walk = choose|walk: Seq<(int, int)>| #[trigger]
                    terrain.is_walk(walk) && walk.last() == (x, y);
                lemma_closed_complete(terrain, marks@, walk);
            }
        }
    }
}

/// A flood under way: everything marked since `first` waits in the queue.
spec fn spreading(
    terrain: Terrain,
    first: Seq<bool>,
    rest: Seq<(u32, u32)>,
    marks: Seq<bool>,
    queue: Seq<(u32, u32)>,
) -> bool {
    &&& marks.len() == first.len()
    &&& first.len() == terrain.width * terrain.height
    &&& sound(terrain, marks)
    &&& queued(terrain, marks, queue)
    &&& grows(first, marks)
    &&& forall|u: int, v: int|
        in_grid(u, v, terrain.width, terrain.height) && #[trigger] marked(
            marks,
            (u, v),
            terrain.width,
        ) && !marked(first, (u, v), terrain.width) ==> waiting(queue, (u, v))
    &&& forall|at: (int, int)| #[trigger] waiting(rest, at) ==> waiting(queue, at)
    &&& unmarked(marks) < unmarked(first) || (marks == first && queue == rest)
}

proof fn lemma_spreading_step(
    terrain: Terrain,
    first: Seq<bool>,
    rest: Seq<(u32, u32)>,
    before: Seq<bool>,
    from: Seq<(u32, u32)>,
    after: Seq<bool>,
    to: Seq<(u32, u32)>,
)
    requires
        spreading(terrain, first, rest, before, from),
        after.len() == before.len(),
        sound(terrain, after),
        queued(terrain, after, to),
        grows(before, after),
        forall|u: int, v: int|
            in_grid(u, v, terrain.width, terrain.height) && #[trigger] marked(
                after,
                (u, v),
                terrain.width,
            ) && !marked(before, (u, v), terrain.width) ==> waiting(to, (u, v)),
        forall|at: (int, int)| #[trigger] waiting(from, at) ==> waiting(to, at),
        unmarked(after) < unmarked(before) || (after == before && to == from),
    ensures
        spreading(terrain, first, rest, after, to),
{
    assert forall|u: int, v: int|
        in_grid(u, v, terrain.width, terrain.height) && #[trigger] marked(
            after,
            (u, v),
            terrain.width,
        ) && !marked(first, (u, v), terrain.width) implies waiting(to, (u, v)) by {
        if marked(before, (u, v), terrain.width) {
            assert(waiting(from, (u, v)));
        }
    }
    assert forall|at: (int, int)| #[trigger] waiting(rest, at) implies waiting(to, at) by {
        assert(waiting(from, at));
    }
}

/// Once every neighbour of the cell taken from the queue is marked, the flood has progressed.
proof fn lemma_spreading_done(
    terrain: Terrain,
    first: Seq<bool>,
    whole: Seq<(u32, u32)>,
    rest: Seq<(u32, u32)>,
    marks: Seq<bool>,
    queue: Seq<(u32, u32)>,
    taken: (u32, u32),
)
    requires
        progressed(terrain, first, whole),
        seeded(terrain, first),
        whole.len() > 0,
        whole[0] == taken,
        rest == whole.subrange(1, whole.len() as int),
        spreading(terrain, first, rest, marks, queue),
        surrounded(terrain, marks, (taken.0 as int, taken.1 as int)),
    ensures
        progressed(terrain, marks, queue),
        seeded(terrain, marks),
{
    let at = (taken.0 as int, taken.1 as int);
    assert forall|x: int, y: int|
        in_grid(x, y, terrain.width, terrain.height) && #[trigger] marked(
            marks,
            (x, y),
            terrain.width,
        ) implies waiting(queue, (x, y)) || surrounded(terrain, marks, (x, y)) by {
        if marked(first, (x, y), terrain.width) {
            if waiting(whole, (x, y)) {
                let i = choose|i: int|
                    0 <= i < whole.len() && (#[trigger] whole[i]).0 as int == x && whole[i].1 as int
                        == y;
                if i == 0 {
                    assert((x, y) == at);
                } else {
                    assert(rest[i - 1] == whole[i]);
                    assert(waiting(rest, (x, y)));
                }
            } else {
                assert(surrounded(terrain, first, (x, y)));
                lemma_grows(terrain, first, marks, (x, y));
            }
        }
    }
    assert forall|x: int, y: int| #[trigger]
        terrain.enterable((x, y)) && (terrain.seed)((x, y)) implies marked(
        marks,
        (x, y),
        terrain.width,
    ) by {
        assert(marked(first, (x, y), terrain.width));
        lemma_cell_bounds(x, y, terrain.width, terrain.height);
    }
}

proof fn lemma_grows(terrain: Terrain, before: Seq<bool>, after: Seq<bool>, at: (int, int))
    requires
        grows(before, after),
        before.len() == terrain.width * terrain.height,
        surrounded(terrain, before, at),
    ensures
        surrounded(terrain, after, at),
{
    assert forall|x: int, y: int| #[trigger]
        terrain.enterable((x, y)) && adjacent(at, (x, y), terrain.corners) implies marked(
        after,
        (x, y),
        terrain.width,
    ) by {
        assert(marked(before, (x, y), terrain.width));
        lemma_cell_bounds(x, y, terrain.width, terrain.height);
    }
}

/// Starts a flood: nothing is marked.
proof fn lemma_spreading_start(terrain: Terrain, first: Seq<bool>)
    requires
        first.len() == terrain.width * terrain.height,
        forall|i: int| 0 <= i < first.len() ==> !first[i],
    ensures
        spreading(terrain, first, Seq::empty(), first, Seq::empty()),
{
    assert forall|u: int, v: int|
        in_grid(u, v, terrain.width, terrain.height) implies !#[trigger] marked(
        first,
        (u, v),
        terrain.width,
    ) by {
        lemma_cell_bounds(u, v, terrain.width, terrain.height);
    }
}

/// A start that has been visited is marked, and the flood goes on.
proof fn lemma_seed_visited(
    terrain: Terrain,
    first: Seq<bool>,
    before: Seq<bool>,
    from: Seq<(u32, u32)>,
    after: Seq<bool>,
    to: Seq<(u32, u32)>,
    x: u32,
    y: u32,
)
    requires
        terrain.width >= 0,
        spreading(terrain, first, Seq::empty(), before, from),
        in_grid(x as int, y as int, terrain.width, terrain.height),
        (terrain.seed)((x as int, y as int)),
        ({
            let at = cell(x as int, y as int, terrain.width);
            if !before[at] && (terrain.open)((x as int, y as int)) {
                &&& after == before.update(at, true)
                &&& to == from.push((x, y))
            } else {
                &&& after == before
                &&& to == from
            }
        }),
    ensures
        spreading(terrain, first, Seq::empty(), after, to),
        terrain.enterable((x as int, y as int)) ==> marked(
            after,
            (x as int, y as int),
            terrain.width,
        ),
        forall|u: int, v: int|
            in_grid(u, v, terrain.width, terrain.height) && #[trigger] marked(
                before,
                (u, v),
                terrain.width,
            ) ==> marked(after, (u, v), terrain.width),
{
    if terrain.enterable((x as int, y as int)) {
        lemma_seed_reached(terrain, (x as int, y as int));
    }
    lemma_visit(terrain, before, after, from, to, x, y);
    lemma_spreading_step(terrain, first, Seq::empty(), before, from, after, to);
    assert forall|u: int, v: int|
        in_grid(u, v, terrain.width, terrain.height) && #[trigger] marked(
            before,
            (u, v),
            terrain.width,
        ) implies marked(after, (u, v), terrain.width) by {
        lemma_cell_bounds(u, v, terrain.width, terrain.height);
    }
}

/// What can be reached from the border of a grid without crossing cells of one kind.
pub open spec fn outside_of(kinds: Seq<usize>, barrier: usize, width: int, height: int) -> Terrain {
    Terrain {
        width,
        height,
        open: passable(kinds, (Passage { kind: barrier, within: false }), width),
        seed: |at: (int, int)| at.0 == 0 || at.0 == width - 1 || at.1 == 0 || at.1 == height - 1,
        corners: false,
    }
}

/// Which cells can be reached from the border without crossing a cell of the kind `barrier`.
pub fn reachable_without_cluster(
    assignments: &Vec<usize>,
    barrier: usize,
    width: u32,
    height: u32,
) -> (result: Vec<bool>)
    requires
        assignments.len() == width * height,
        width == 0 <==> height == 0,
    ensures
        result.len() == assignments.len(),
        forall|x: int, y: int|
            in_grid(x, y, width as int, height as int) ==> #[trigger] marked(
                result@,
                (x, y),
                width as int,
            ) == outside_of(assignments@, barrier, width as int, height as int).reached((x, y)),
{
    let passage = Passage { kind: barrier, within: false };
    let ghost terrain = outside_of(assignments@, barrier, width as int, height as int);
    let mut marks: Vec<bool> = vec![false; assignments.len()];
    let mut queue: VecDeque<(u32, u32)> = VecDeque::new();
    let ghost first = marks@;
    proof {
        lemma_spreading_start(terrain, first);
        assert(queue@ =~= Seq::empty());
    }
    let mut x: u32 = 0;
    while x < width
        invariant
            x <= width,
            height > 0 || width == 0,
            assignments.len() == width * height,
            marks.len() == assignments.len(),
            passage == (Passage { kind: barrier, within: false }),
            terrain == outside_of(assignments@, barrier, width as int, height as int),
            spreading(terrain, first, Seq::empty(), marks@, queue@),
            forall|u: int, v: int| #[trigger]
                terrain.enterable((u, v)) && u < x && (v == 0 || v == height - 1) ==> marked(
                    marks@,
                    (u, v),
                    width as int,
                ),
        decreases width - x,
    {
        let ghost before = marks@;
        let ghost from = queue@;
        visit(&mut marks, &mut queue, assignments, passage, x, 0, width, height);
        proof {
            lemma_seed_visited(terrain, first, before, from, marks@, queue@, x, 0);
        }
        let ghost middle = marks@;
        let ghost through = queue@;
        visit(&mut marks, &mut queue, assignments, passage, x, height - 1, width, height);
        proof {
            lemma_seed_visited(
                terrain,
                first,
                middle,
                through,
                marks@,
                queue@,
                x,
                (height - 1) as u32,
            );
        }
        x += 1;
    }
    let mut y: u32 = 0;
    while y < height
        invariant
            y <= height,
            width > 0 || height == 0,
            assignments.len() == width * height,
            marks.len() == assignments.len(),
            passage == (Passage { kind: barrier, within: false }),
            terrain == outside_of(assignments@, barrier, width as int, height as int),
            spreading(terrain, first, Seq::empty(), marks@, queue@),
            forall|u: int, v: int| #[trigger]
                terrain.enterable((u, v)) && (v == 0 || v == height - 1) ==> marked(
                    marks@,
                    (u, v),
                    width as int,
                ),
            forall|u: int, v: int| #[trigger]
                terrain.enterable((u, v)) && v < y && (u == 0 || u == width - 1) ==> marked(
                    marks@,
                    (u, v),
                    width as int,
                ),
        decreases height - y,
    {
        let ghost before = marks@;
        let ghost from = queue@;
        visit(&mut marks, &mut queue, assignments, passage, 0, y, width, height);
        proof {
            lemma_seed_visited(terrain, first, before, from, marks@, queue@, 0, y);
        }
        let ghost middle = marks@;
        let ghost through = queue@;
        visit(&mut marks, &mut queue, assignments, passage, width - 1, y, width, height);
        proof {
            lemma_seed_visited(
                terrain,
                first,
                middle,
                through,
                marks@,
                queue@,
                (width - 1) as u32,
                y,
            );
        }
        y += 1;
    }
    proof {
        assert forall|u: int, v: int|
            in_grid(u, v, terrain.width, terrain.height) implies !#[trigger] marked(
            first,
            (u, v),
            terrain.width,
        ) by {
            lemma_cell_bounds(u, v, terrain.width, terrain.height);
        }
    }
    spread(&mut marks, &mut queue, assignments, passage, false, width, height, Ghost(terrain));
    marks
}

/// The cell is one of the nine around a pixel.
pub open spec fn near(pixel: MaskPixel, at: (int, int)) -> bool {
    -1 <= pixel.x - at.0 <= 1 && -1 <= pixel.y - at.1 <= 1
}

/// The cells of one kind that are connected, corners counted, to a cell of that kind around
/// one of the pixels.
pub open spec fn enclosing(
    kinds: Seq<usize>,
    cluster: usize,
    fill: Seq<MaskPixel>,
    width: int,
    height: int,
) -> Terrain {
    Terrain {
        width,
        height,
        open: passable(kinds, (Passage { kind: cluster, within: true }), width),
        seed: |at: (int, int)|
            exists|i: int| 0 <= i < fill.len() && near(#[trigger] fill[i], at),
        corners: true,
    }
}

/// Those pixels of a cluster that are connected, corners counted, to the cluster's pixels
/// around the enclosed ones.
pub fn enclosing_cluster_pixels(
    assignments: &Vec<usize>,
    cluster: usize,
    cluster_pixels: &Vec<MaskPixel>,
    enclosed_fill: &Vec<MaskPixel>,
    width: u32,
    height: u32,
) -> (result: Vec<MaskPixel>)
    requires
        assignments.len() == width * height,
        all_inside(cluster_pixels@, width as int, height as int),
        all_inside(enclosed_fill@, width as int, height as int),
    ensures
        result@ == cluster_pixels@.filter(
            |pixel: MaskPixel|
                enclosing(
                    assignments@,
                    cluster,
                    enclosed_fill@,
                    width as int,
                    height as int,
                ).reached((pixel.x as int, pixel.y as int)),
        ),
{
    let passage = Passage { kind: cluster, within: true };
    let ghost terrain = enclosing(
        assignments@,
        cluster,
        enclosed_fill@,
        width as int,
        height as int,
    );
    let mut marks: Vec<bool> = vec![false; assignments.len()];
    let mut queue: VecDeque<(u32, u32)> = VecDeque::new();
    let ghost first = marks@;
    proof {
        lemma_spreading_start(terrain, first);
        assert(queue@ =~= Seq::empty());
    }
    let mut index: usize = 0;
    while index < enclosed_fill.len()
        invariant
            index <= enclosed_fill.len(),
            assignments.len() == width * height,
            marks.len() == assignments.len(),
            all_inside(enclosed_fill@, width as int, height as int),
            passage == (Passage { kind: cluster, within: true }),
            terrain == enclosing(
                assignments@,
                cluster,
                enclosed_fill@,
                width as int,
                height as int,
            ),
            spreading(terrain, first, Seq::empty(), marks@, queue@),
            forall|i: int, u: int, v: int|
                #![trigger enclosed_fill@[i], terrain.enterable((u, v))]
                0 <= i < index && terrain.enterable((u, v)) && near(enclosed_fill@[i], (u, v))
                    ==> marked(marks@, (u, v), width as int),
        decreases enclosed_fill.len() - index,
    {
        let fill = enclosed_fill[index];
        assert(fill.inside(width as int, height as int));
        let left: u32 = if fill.x > 0 {
            fill.x - 1
        } else {
            0
        };
        let right: u32 = if fill.x + 1 < width {
            fill.x + 1
        } else {
            width - 1
        };
        let bottom: u32 = if fill.y + 1 < height {
            fill.y + 1
        } else {
            height - 1
        };
        let ghost start = marks@;
        let mut y: u32 = if fill.y > 0 {
            fill.y - 1
        } else {
            0
        };
        while y <= bottom
            invariant
                index < enclosed_fill.len(),
                fill == enclosed_fill@[index as int],
                fill.inside(width as int, height as int),
                left == (if fill.x > 0 { fill.x - 1 } else { 0 }),
                right == (if fill.x + 1 < width { fill.x + 1 } else { width - 1 }),
                bottom == (if fill.y + 1 < height { fill.y + 1 } else { height - 1 }),
                (if fill.y > 0 { fill.y - 1 } else { 0 }) <= y <= bottom + 1,
                assignments.len() == width * height,
                marks.len() == assignments.len(),
                passage == (Passage { kind: cluster, within: true }),
                terrain == enclosing(
                    assignments@,
                    cluster,
                    enclosed_fill@,
                    width as int,
                    height as int,
                ),
                spreading(terrain, first, Seq::empty(), marks@, queue@),
                forall|u: int, v: int|
                    in_grid(u, v, width as int, height as int) && #[trigger] marked(
                        start,
                        (u, v),
                        width as int,
                    ) ==> marked(marks@, (u, v), width as int),
                forall|u: int, v: int| #[trigger]
                    terrain.enterable((u, v)) && near(fill, (u, v)) && v < y ==> marked(
                        marks@,
                        (u, v),
                        width as int,
                    ),
            decreases bottom + 1 - y,
        {
            let mut x: u32 = left;
            while x <= right
                invariant
                    index < enclosed_fill.len(),
                    fill == enclosed_fill@[index as int],
                    fill.inside(width as int, height as int),
                    left == (if fill.x > 0 { fill.x - 1 } else { 0 }),
                    right == (if fill.x + 1 < width { fill.x + 1 } else { width - 1 }),
                    bottom == (if fill.y + 1 < height { fill.y + 1 } else { height - 1 }),
                    (if fill.y > 0 { fill.y - 1 } else { 0 }) <= y <= bottom,
                    left <= x <= right + 1,
                    assignments.len() == width * height,
                    marks.len() == assignments.len(),
                    passage == (Passage { kind: cluster, within: true }),
                    terrain == enclosing(
                        assignments@,
                        cluster,
                        enclosed_fill@,
                        width as int,
                        height as int,
                    ),
                    spreading(terrain, first, Seq::empty(), marks@, queue@),
                    forall|u: int, v: int|
                        in_grid(u, v, width as int, height as int) && #[trigger] marked(
                            start,
                            (u, v),
                            width as int,
                        ) ==> marked(marks@, (u, v), width as int),
                    forall|u: int, v: int| #[trigger]
                        terrain.enterable((u, v)) && near(fill, (u, v)) && (v < y || (v == y && u
                            < x)) ==> marked(marks@, (u, v), width as int),
                decreases right + 1 - x,
            {
                let ghost before = marks@;
                let ghost from = queue@;
                visit(&mut marks, &mut queue, assignments, passage, x, y, width, height);
                proof {
                    assert(near(enclosed_fill@[index as int], (x as int, y as int)));
                    assert((terrain.seed)((x as int, y as int)));
                    lemma_seed_visited(terrain, first, before, from, marks@, queue@, x, y);
                }
                x += 1;
            }
            y += 1;
        }
        index += 1;
    }
    proof {
        assert forall|u: int, v: int|
            in_grid(u, v, terrain.width, terrain.height) implies !#[trigger] marked(
            first,
            (u, v),
            terrain.width,
        ) by {
            lemma_cell_bounds(u, v, terrain.width, terrain.height);
        }
        assert(seeded(terrain, marks@));
    }
    spread(&mut marks, &mut queue, assignments, passage, true, width, height, Ghost(terrain));
    let ghost keep = |pixel: MaskPixel| terrain.reached((pixel.x as int, pixel.y as int));
    let mut result: Vec<MaskPixel> = Vec::new();
    let mut at: usize = 0;
    while at < cluster_pixels.len()
        invariant
            at <= cluster_pixels.len(),
            assignments.len() == width * height,
            marks.len() == assignments.len(),
            all_inside(cluster_pixels@, width as int, height as int),
            keep == (|pixel: MaskPixel| terrain.reached((pixel.x as int, pixel.y as int))),
            forall|x: int, y: int|
                in_grid(x, y, width as int, height as int) ==> #[trigger] marked(
                    marks@,
                    (x, y),
                    width as int,
                ) == terrain.reached((x, y)),
            result@ == cluster_pixels@.take(at as int).filter(keep),
        decreases cluster_pixels.len() - at,
    {
        let pixel = cluster_pixels[at];
        assert(pixel.inside(width as int, height as int));
        let place: usize = cell_index(pixel.x, pixel.y, width, height, marks.len());
        proof {
            assert(marked(marks@, (pixel.x as int, pixel.y as int), width as int)
                == marks@[place as int]);
            let next = cluster_pixels@.take(at as int + 1);
            assert(next.drop_last() =~= cluster_pixels@.take(at as int));
            reveal(Seq::filter);
        }
        if marks[place] {
            result.push(pixel);
        }
        at += 1;
    }
    proof {
        assert(cluster_pixels@.take(at as int) =~= cluster_pixels@);
    }
    result
}

} // verus!
