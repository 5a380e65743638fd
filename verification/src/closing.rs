//! Closes the gaps in the mask of a page, one group of neighbouring regions at a time.

use vstd::prelude::*;

use crate::color::square;
use crate::groups::Groups;
use crate::mask::{
    apart, close, dark_within, dilate, inked, is_closed, is_dilated, is_eroded, is_mask_for,
    lit_within, matches_mask_label, on_page, stamp_mask, valid_mask, GrayMask, ImageSize,
    LayoutDetection, LayoutMask, MAX_IMAGE_SIDE,
};

verus! {

/// A rectangle of a page; the right and the bottom edge do not belong to it.
#[derive(Clone, Copy, Debug, PartialEq, Eq, Structural)]
pub struct Rect {
    pub left: u32,
    pub top: u32,
    pub right: u32,
    pub bottom: u32,
}

impl Rect {
    pub open spec fn has(self, at: (int, int)) -> bool {
        self.left <= at.0 < self.right && self.top <= at.1 < self.bottom
    }

    /// Everything in the other rectangle is in this one.
    pub open spec fn includes(self, other: Rect) -> bool {
        &&& self.left <= other.left
        &&& self.top <= other.top
        &&& other.right <= self.right
        &&& other.bottom <= self.bottom
    }
}

/// The whole page.
pub open spec fn page_of(size: ImageSize) -> Rect {
    Rect { left: 0, top: 0, right: size.width, bottom: size.height }
}

pub open spec fn least(left: int, right: int) -> int {
    if left <= right {
        left
    } else {
        right
    }
}

/// The part of a mask's rectangle that lies on the page.
pub open spec fn frame_of(mask: &LayoutMask, size: ImageSize) -> Rect {
    Rect {
        left: least(mask.x as int, size.width as int) as u32,
        top: least(mask.y as int, size.height as int) as u32,
        right: least(mask.x + mask.width, size.width as int) as u32,
        bottom: least(mask.y + mask.height, size.height as int) as u32,
    }
}

/// A rectangle with a margin around it, as far as that lies on the page.
pub open spec fn padded(rect: Rect, margin: int, size: ImageSize) -> Rect {
    Rect {
        left: (if rect.left >= margin {
            rect.left - margin
        } else {
            0
        }) as u32,
        top: (if rect.top >= margin {
            rect.top - margin
        } else {
            0
        }) as u32,
        right: least(rect.right + margin, size.width as int) as u32,
        bottom: least(rect.bottom + margin, size.height as int) as u32,
    }
}

/// Two rectangles overlap or share a border.
pub open spec fn touching(left: Rect, right: Rect) -> bool {
    &&& left.left <= right.right
    &&& right.left <= left.right
    &&& left.top <= right.bottom
    &&& right.top <= left.bottom
}

fn lesser(left: u32, right: u32) -> (result: u32)
    ensures
        result == least(left as int, right as int),
{
    if left <= right {
        left
    } else {
        right
    }
}

pub fn mask_bounds(mask: &LayoutMask, size: ImageSize) -> (result: Rect)
    ensures
        result == frame_of(mask, size),
{
    Rect {
        left: lesser(mask.x, size.width),
        top: lesser(mask.y, size.height),
        right: lesser(mask.x.saturating_add(mask.width), size.width),
        bottom: lesser(mask.y.saturating_add(mask.height), size.height),
    }
}

pub fn expand_bounds(rect: Rect, margin: u32, size: ImageSize) -> (result: Rect)
    ensures
        result == padded(rect, margin as int, size),
{
    Rect {
        left: rect.left.saturating_sub(margin),
        top: rect.top.saturating_sub(margin),
        right: lesser(rect.right.saturating_add(margin), size.width),
        bottom: lesser(rect.bottom.saturating_add(margin), size.height),
    }
}

pub fn expand_mask_bounds(mask: &LayoutMask, margin: u32, size: ImageSize) -> (result: Rect)
    ensures
        result == padded(frame_of(mask, size), margin as int, size),
{
    expand_bounds(mask_bounds(mask, size), margin, size)
}

/// The least rectangle around two others.
pub open spec fn joined(left: Rect, right: Rect) -> Rect {
    Rect {
        left: if left.left <= right.left {
            left.left
        } else {
            right.left
        },
        top: if left.top <= right.top {
            left.top
        } else {
            right.top
        },
        right: if left.right >= right.right {
            left.right
        } else {
            right.right
        },
        bottom: if left.bottom >= right.bottom {
            left.bottom
        } else {
            right.bottom
        },
    }
}

pub fn union_bounds(left: Rect, right: Rect) -> (result: Rect)
    ensures
        result == joined(left, right),
{
    Rect {
        left: if left.left <= right.left {
            left.left
        } else {
            right.left
        },
        top: if left.top <= right.top {
            left.top
        } else {
            right.top
        },
        right: if left.right >= right.right {
            left.right
        } else {
            right.right
        },
        bottom: if left.bottom >= right.bottom {
            left.bottom
        } else {
            right.bottom
        },
    }
}

pub fn rectangles_touch(left: Rect, right: Rect) -> (result: bool)
    ensures
        result == touching(left, right),
{
    left.left <= right.right && right.left <= left.right && left.top <= right.bottom && right.top
        <= left.bottom
}

/// What is within a distance of the ink, in a rectangle.
pub open spec fn grown(
    ink: spec_fn((int, int)) -> bool,
    rect: Rect,
    reach: int,
) -> spec_fn((int, int)) -> bool {
    |at: (int, int)|
        exists|u: int, v: int| #[trigger]
            rect.has((u, v)) && ink((u, v)) && apart(at.0, at.1, u, v) <= square(reach)
}

/// What is not within a distance of a place of the rectangle without ink.
pub open spec fn shrunk(
    ink: spec_fn((int, int)) -> bool,
    rect: Rect,
    reach: int,
) -> spec_fn((int, int)) -> bool {
    |at: (int, int)|
        forall|u: int, v: int| #[trigger]
            rect.has((u, v)) && apart(at.0, at.1, u, v) <= square(reach) ==> ink((u, v))
}

/// The ink grown twice and shrunk once, which closes gaps. With the reach at which
/// distances saturate, nothing is left.
pub open spec fn closed_ink(
    ink: spec_fn((int, int)) -> bool,
    rect: Rect,
    reach: int,
) -> spec_fn((int, int)) -> bool {
    |at: (int, int)|
        reach != 255 && shrunk(grown(grown(ink, rect, reach), rect, reach), rect, reach)(at)
}

/// The ink of the detections for a label.
pub open spec fn label_ink(
    detections: Seq<LayoutDetection>,
    label: Seq<char>,
) -> spec_fn((int, int)) -> bool {
    |at: (int, int)| inked(detections, label, at.0, at.1)
}

/// An image shows the ink of a rectangle of the page.
pub open spec fn shows(image: &GrayMask, ink: spec_fn((int, int)) -> bool, rect: Rect) -> bool {
    &&& image.well_formed()
    &&& rect.left <= rect.right
    &&& rect.top <= rect.bottom
    &&& image.width == rect.right - rect.left
    &&& image.height == rect.bottom - rect.top
    &&& forall|x: int, y: int| #[trigger]
        rect.has((x, y)) ==> (image.at(x - rect.left, y - rect.top) != 0) == ink((x, y))
}

proof fn lemma_dilated_shows(
    result: &GrayMask,
    image: &GrayMask,
    ink: spec_fn((int, int)) -> bool,
    rect: Rect,
    reach: u8,
)
    requires
        shows(image, ink, rect),
        is_dilated(result, image, reach),
        reach < 255,
    ensures
        shows(result, grown(ink, rect, reach as int), rect),
{
    assert forall|x: int, y: int| #[trigger] rect.has((x, y)) implies (result.at(
        x - rect.left,
        y - rect.top,
    ) != 0) == grown(ink, rect, reach as int)((x, y)) by {
        let (a, b) = (x - rect.left, y - rect.top);
        assert(image.contains_cell(a, b));
        assert(result.at(a, b) == (if lit_within(image, a, b, reach as int) {
            255u8
        } else {
            0
        }));
        if lit_within(image, a, b, reach as int) {
            let (u, v) = choose|u: int, v: int|
                image.contains_cell(u, v) && #[trigger] image.at(u, v) != 0 && apart(a, b, u, v)
                    <= square(reach as int);
            let (s, t) = (u + rect.left, v + rect.top);
            assert(rect.has((s, t)));
            assert(s - rect.left == u && t - rect.top == v);
            assert(apart(x, y, s, t) == apart(a, b, u, v));
        }
        if grown(ink, rect, reach as int)((x, y)) {
            let (s, t) = choose|s: int, t: int| #[trigger]
                rect.has((s, t)) && ink((s, t)) && apart(x, y, s, t) <= square(reach as int);
            let (u, v) = (s - rect.left, t - rect.top);
            assert(image.contains_cell(u, v));
            assert(image.at(u, v) != 0);
            assert(apart(a, b, u, v) == apart(x, y, s, t));
        }
    }
}

proof fn lemma_eroded_shows(
    result: &GrayMask,
    image: &GrayMask,
    ink: spec_fn((int, int)) -> bool,
    rect: Rect,
    reach: u8,
)
    requires
        shows(image, ink, rect),
        is_eroded(result, image, reach),
        reach < 255,
    ensures
        shows(result, shrunk(ink, rect, reach as int), rect),
{
    assert forall|x: int, y: int| #[trigger] rect.has((x, y)) implies (result.at(
        x - rect.left,
        y - rect.top,
    ) != 0) == shrunk(ink, rect, reach as int)((x, y)) by {
        let (a, b) = (x - rect.left, y - rect.top);
        assert(image.contains_cell(a, b));
        assert(result.at(a, b) == (if dark_within(image, a, b, reach as int) {
            0u8
        } else {
            255
        }));
        if dark_within(image, a, b, reach as int) {
            let (u, v) = choose|u: int, v: int|
                image.contains_cell(u, v) && #[trigger] image.at(u, v) == 0 && apart(a, b, u, v)
                    <= square(reach as int);
            let (s, t) = (u + rect.left, v + rect.top);
            assert(rect.has((s, t)));
            assert(s - rect.left == u && t - rect.top == v);
            assert(apart(x, y, s, t) == apart(a, b, u, v));
            assert(!ink((s, t)));
        }
        if !shrunk(ink, rect, reach as int)((x, y)) {
            let (s, t) = choose|s: int, t: int| #[trigger]
                rect.has((s, t)) && apart(x, y, s, t) <= square(reach as int) && !ink((s, t));
            let (u, v) = (s - rect.left, t - rect.top);
            assert(image.contains_cell(u, v));
            assert(image.at(u, v) == 0);
            assert(apart(a, b, u, v) == apart(x, y, s, t));
        }
    }
}

/// Dilating and closing an image shows the closed ink, in white on black.
pub proof fn lemma_closed_shows(
    result: &GrayMask,
    thick: &GrayMask,
    image: &GrayMask,
    ink: spec_fn((int, int)) -> bool,
    rect: Rect,
    reach: u8,
)
    requires
        shows(image, ink, rect),
        is_dilated(thick, image, reach),
        is_closed(result, thick, reach),
    ensures
        shows(result, closed_ink(ink, rect, reach as int), rect),
        forall|x: int, y: int| #[trigger]
            rect.has((x, y)) ==> result.at(x - rect.left, y - rect.top) == (if closed_ink(
                ink,
                rect,
                reach as int,
            )((x, y)) {
                255u8
            } else {
                0
            }),
{
    let middle = choose|middle: GrayMask| #[trigger]
        is_dilated(&middle, thick, reach) && is_eroded(result, &middle, reach);
    assert forall|x: int, y: int| #[trigger] rect.has((x, y)) implies result.at(
        x - rect.left,
        y - rect.top,
    ) == 0 || result.at(x - rect.left, y - rect.top) == 255 by {
        assert(middle.contains_cell(x - rect.left, y - rect.top));
        assert(result.at(x - rect.left, y - rect.top) == (if reach == 255 || dark_within(
            &middle,
            x - rect.left,
            y - rect.top,
            reach as int,
        ) {
            0u8
        } else {
            255
        }));
    }
    if reach < 255 {
        let k = reach as int;
        lemma_dilated_shows(thick, image, ink, rect, reach);
        lemma_dilated_shows(&middle, thick, grown(ink, rect, k), rect, reach);
        lemma_eroded_shows(result, &middle, grown(grown(ink, rect, k), rect, k), rect, reach);
    } else {
        assert forall|x: int, y: int| #[trigger] rect.has((x, y)) implies result.at(
            x - rect.left,
            y - rect.top,
        ) == 0 by {
            assert(middle.contains_cell(x - rect.left, y - rect.top));
            assert(result.at(x - rect.left, y - rect.top) == 0);
        }
    }
}

/// The masks to close on a page: some of the detections, divided into groups.
pub struct Pieces {
    pub detections: Seq<LayoutDetection>,
    pub chosen: Seq<usize>,
    pub roots: Seq<int>,
    pub size: ImageSize,
    pub reach: int,
}

impl Pieces {
    pub open spec fn mask(self, j: int) -> LayoutMask {
        self.detections[self.chosen[j] as int].mask
    }

    pub open spec fn frame(self, j: int) -> Rect {
        frame_of(&self.mask(j), self.size)
    }

    pub open spec fn page(self) -> Rect {
        page_of(self.size)
    }

    /// The ink of all pieces.
    pub open spec fn ink(self) -> spec_fn((int, int)) -> bool {
        |at: (int, int)|
            exists|j: int|
                0 <= j < self.chosen.len() && #[trigger] self.mask(j).covers(at.0, at.1)
    }

    /// The ink of one group of pieces.
    pub open spec fn group_ink(self, root: int) -> spec_fn((int, int)) -> bool {
        |at: (int, int)|
            exists|j: int|
                0 <= j < self.chosen.len() && self.roots[j] == root && #[trigger] self.mask(
                    j,
                ).covers(at.0, at.1)
    }

    /// The least rectangle around the pieces of a group among the first `end` ones.
    pub open spec fn hull(self, root: int, end: int) -> Option<Rect>
        decreases end,
    {
        if end <= 0 {
            None
        } else {
            let earlier = self.hull(root, end - 1);
            if self.roots[end - 1] != root {
                earlier
            } else {
                match earlier {
                    Some(rect) => Some(joined(rect, self.frame(end - 1))),
                    None => Some(self.frame(end - 1)),
                }
            }
        }
    }

    /// The rectangle in which a group is closed.
    pub open spec fn window(self, root: int) -> Rect {
        match self.hull(root, self.chosen.len() as int) {
            Some(rect) => padded(rect, 3 * self.reach, self.size),
            None => Rect { left: 0, top: 0, right: 0, bottom: 0 },
        }
    }

    /// Pieces that can interact are in one group.
    pub open spec fn grouped(self) -> bool {
        &&& self.roots.len() == self.chosen.len()
        &&& forall|i: int, j: int|
            0 <= i < self.chosen.len() && 0 <= j < self.chosen.len() && touching(
                padded(#[trigger] self.frame(i), 2 * self.reach, self.size),
                padded(#[trigger] self.frame(j), 2 * self.reach, self.size),
            ) ==> self.roots[i] == self.roots[j]
    }

    /// Some group's closed ink covers the place.
    pub open spec fn locally_closed(self, at: (int, int)) -> bool {
        exists|root: int|
            0 <= root < self.chosen.len() && self.roots[root] == root && #[trigger] self.window(
                root,
            ).has(at) && closed_ink(self.group_ink(root), self.window(root), self.reach)(at)
    }

    /// The place is within twice the reach of the piece's ink, with a place of the page between.
    pub open spec fn near_piece(self, at: (int, int), j: int) -> bool {
        exists|a: int, b: int, u: int, v: int|
            #![trigger self.page().has((a, b)), self.page().has((u, v))]
            self.page().has((a, b)) && self.page().has((u, v)) && self.mask(j).covers(u, v)
                && apart(at.0, at.1, a, b) <= square(self.reach) && apart(a, b, u, v) <= square(
                self.reach,
            )
    }
}

/// Places within a distance differ by no more than it in each direction.
proof fn lemma_apart(x: int, y: int, u: int, v: int, reach: int)
    requires
        0 <= reach,
        apart(x, y, u, v) <= square(reach),
    ensures
        -reach <= x - u <= reach,
        -reach <= y - v <= reach,
{
    let (dx, dy) = (x - u, y - v);
    assert(-reach <= dx <= reach && -reach <= dy <= reach) by (nonlinear_arith)
        requires
            0 <= reach,
            dx * dx + dy * dy <= reach * reach,
    ;
}

/// A piece's ink on the page lies in its frame.
proof fn lemma_covers_framed(pieces: Pieces, j: int, u: int, v: int)
    requires
        pieces.mask(j).covers(u, v),
        pieces.page().has((u, v)),
    ensures
        pieces.frame(j).has((u, v)),
{
}

/// What is near a piece lies in its padded frame.
proof fn lemma_near_padded(pieces: Pieces, at: (int, int), j: int, margin: int)
    requires
        0 <= pieces.reach <= 255,
        2 * pieces.reach <= margin <= 1000,
        pieces.page().has(at),
        pieces.near_piece(at, j),
    ensures
        padded(pieces.frame(j), margin, pieces.size).has(at),
{
    let (a, b, u, v) = choose|a: int, b: int, u: int, v: int|
        #![trigger pieces.page().has((a, b)), pieces.page().has((u, v))]
        pieces.page().has((a, b)) && pieces.page().has((u, v)) && pieces.mask(j).covers(u, v)
            && apart(at.0, at.1, a, b) <= square(pieces.reach) && apart(a, b, u, v) <= square(
            pieces.reach,
        );
    lemma_covers_framed(pieces, j, u, v);
    lemma_apart(at.0, at.1, a, b, pieces.reach);
    lemma_apart(a, b, u, v, pieces.reach);
}

/// A place of the page whose doubly grown ink is set is near some piece.
proof fn lemma_grown_near(pieces: Pieces, at: (int, int)) -> (j: int)
    requires
        grown(grown(pieces.ink(), pieces.page(), pieces.reach), pieces.page(), pieces.reach)(at),
    ensures
        0 <= j < pieces.chosen.len(),
        pieces.near_piece(at, j),
{
    let page = pieces.page();
    let once = grown(pieces.ink(), page, pieces.reach);
    let (a, b) = choose|a: int, b: int| #[trigger]
        page.has((a, b)) && once((a, b)) && apart(at.0, at.1, a, b) <= square(pieces.reach);
    let (u, v) = choose|u: int, v: int| #[trigger]
        page.has((u, v)) && pieces.ink()((u, v)) && apart(a, b, u, v) <= square(pieces.reach);
    let j = choose|j: int| 0 <= j < pieces.chosen.len() && #[trigger] pieces.mask(j).covers(u, v);
    assert(pieces.page().has((a, b)) && pieces.page().has((u, v)));
    j
}

/// One step toward another place shortens the distance.
proof fn lemma_closer(px: int, py: int, x: int, y: int, nx: int, ny: int)
    requires
        (nx == x && (y < py ==> ny == y + 1) && (y > py ==> ny == y - 1) && y != py) || (ny == y && (x
            < px ==> nx == x + 1) && (x > px ==> nx == x - 1) && x != px),
    ensures
        apart(px, py, nx, ny) <= apart(px, py, x, y),
{
    let (dx, dy) = (px - x, py - y);
    let (ex, ey) = (px - nx, py - ny);
    if nx == x && y != py {
        assert(ey * ey <= dy * dy) by (nonlinear_arith)
            requires
                (dy > 0 && ey == dy - 1) || (dy < 0 && ey == dy + 1),
        ;
    } else {
        assert(ex * ex <= dx * dx) by (nonlinear_arith)
            requires
                (dx > 0 && ex == dx - 1) || (dx < 0 && ex == dx + 1),
        ;
    }
}

spec fn magnitude(value: int) -> nat {
    if value < 0 {
        -value as nat
    } else {
        value as nat
    }
}

/// Around a place of the closed ink, every place is near a piece of one and the same group.
proof fn lemma_one_group(pieces: Pieces, p: (int, int), first: int, q: (int, int)) -> (j: int)
    requires
        pieces.grouped(),
        0 <= pieces.reach < 255,
        pieces.page().has(p),
        closed_ink(pieces.ink(), pieces.page(), pieces.reach)(p),
        0 <= first < pieces.chosen.len(),
        pieces.near_piece(p, first),
        pieces.page().has(q),
        apart(p.0, p.1, q.0, q.1) <= square(pieces.reach),
    ensures
        0 <= j < pieces.chosen.len(),
        pieces.roots[j] == pieces.roots[first],
        pieces.near_piece(q, j),
    decreases magnitude(p.0 - q.0) + magnitude(p.1 - q.1),
{
    if p == q {
        first
    } else {
        let n = if q.0 < p.0 {
            (q.0 + 1, q.1)
        } else if q.0 > p.0 {
            (q.0 - 1, q.1)
        } else if q.1 < p.1 {
            (q.0, q.1 + 1)
        } else {
            (q.0, q.1 - 1)
        };
        lemma_closer(p.0, p.1, q.0, q.1, n.0, n.1);
        let i = lemma_one_group(pieces, p, first, n);
        assert(pieces.page().has((q.0, q.1)));
        let j = lemma_grown_near(pieces, q);
        lemma_near_padded(pieces, n, i, 2 * pieces.reach);
        lemma_near_padded(pieces, q, j, 2 * pieces.reach);
        assert(touching(
            padded(pieces.frame(j), 2 * pieces.reach, pieces.size),
            padded(pieces.frame(i), 2 * pieces.reach, pieces.size),
        ));
        j
    }
}

/// The hull of a group includes the frames of its pieces.
proof fn lemma_hull(pieces: Pieces, root: int, end: int, j: int)
    requires
        0 <= j < end <= pieces.chosen.len(),
        pieces.roots[j] == root,
    ensures
        pieces.hull(root, end) matches Some(rect) && rect.includes(pieces.frame(j)),
    decreases end,
{
    if j < end - 1 {
        lemma_hull(pieces, root, end - 1, j);
    }
}

/// The window of a group lies on the page.
proof fn lemma_hull_on_page(pieces: Pieces, root: int, end: int)
    requires
        0 <= end <= pieces.chosen.len(),
    ensures
        pieces.hull(root, end) matches Some(rect) ==> rect.right <= pieces.size.width && rect.bottom
            <= pieces.size.height && rect.left <= pieces.size.width && rect.top
            <= pieces.size.height,
    decreases end,
{
    if end > 0 {
        lemma_hull_on_page(pieces, root, end - 1);
    }
}

/// A piece's padded frame lies in its group's window.
proof fn lemma_window(pieces: Pieces, root: int, j: int)
    requires
        0 <= j < pieces.chosen.len(),
        0 <= pieces.reach <= 255,
        pieces.roots[j] == root,
    ensures
        pieces.window(root).includes(padded(pieces.frame(j), 3 * pieces.reach, pieces.size)),
        pieces.page().includes(pieces.window(root)),
{
    lemma_hull(pieces, root, pieces.chosen.len() as int, j);
    lemma_hull_on_page(pieces, root, pieces.chosen.len() as int);
}

/// Closing each group in its window gives what closing the whole page gives.
proof fn lemma_local_closing(pieces: Pieces, p: (int, int))
    requires
        pieces.grouped(),
        0 <= pieces.reach < 255,
        forall|j: int|
            0 <= j < pieces.chosen.len() ==> 0 <= #[trigger] pieces.roots[j] < pieces.chosen.len()
                && pieces.roots[pieces.roots[j]] == pieces.roots[j],
        pieces.page().has(p),
    ensures
        closed_ink(pieces.ink(), pieces.page(), pieces.reach)(p) == pieces.locally_closed(p),
{
    let k = pieces.reach;
    let page = pieces.page();
    if closed_ink(pieces.ink(), page, k)(p) {
        assert(page.has((p.0, p.1)));
        assert(apart(p.0, p.1, p.0, p.1) <= square(k)) by (nonlinear_arith)
            requires
                apart(p.0, p.1, p.0, p.1) == square(p.0 - p.0) + square(p.1 - p.1),
                square(p.0 - p.0) == (p.0 - p.0) * (p.0 - p.0),
                square(p.1 - p.1) == (p.1 - p.1) * (p.1 - p.1),
                square(k) == k * k,
        ;
        let first = lemma_grown_near(pieces, p);
        let root = pieces.roots[first];
        let window = pieces.window(root);
        let own = pieces.group_ink(root);
        lemma_window(pieces, root, first);
        lemma_near_padded(pieces, p, first, 3 * k);
        assert(window.has(p));
        assert forall|x: int, y: int| #[trigger]
            window.has((x, y)) && apart(p.0, p.1, x, y) <= square(k) implies grown(
            grown(own, window, k),
            window,
            k,
        )((x, y)) by {
            assert(page.has((x, y)));
            let j = lemma_one_group(pieces, p, first, (x, y));
            lemma_near_own(pieces, (x, y), j, root);
        }
        assert(closed_ink(own, window, k)(p));
        assert(pieces.locally_closed(p));
    }
    if pieces.locally_closed(p) {
        let root = choose|root: int|
            0 <= root < pieces.chosen.len() && pieces.roots[root] == root && #[trigger] pieces.window(
                root,
            ).has(p) && closed_ink(pieces.group_ink(root), pieces.window(root), k)(p);
        lemma_local_closes(pieces, p, root);
    }
}

/// What is near a piece of a group is in the group's ink, grown twice in its window.
proof fn lemma_near_own(pieces: Pieces, at: (int, int), j: int, root: int)
    requires
        0 <= pieces.reach < 255,
        0 <= j < pieces.chosen.len(),
        pieces.roots[j] == root,
        pieces.near_piece(at, j),
    ensures
        grown(
            grown(pieces.group_ink(root), pieces.window(root), pieces.reach),
            pieces.window(root),
            pieces.reach,
        )(at),
{
    let k = pieces.reach;
    let window = pieces.window(root);
    let (a, b, u, v) = choose|a: int, b: int, u: int, v: int|
        #![trigger pieces.page().has((a, b)), pieces.page().has((u, v))]
        pieces.page().has((a, b)) && pieces.page().has((u, v)) && pieces.mask(j).covers(u, v)
            && apart(at.0, at.1, a, b) <= square(k) && apart(a, b, u, v) <= square(k);
    lemma_window(pieces, root, j);
    lemma_covers_framed(pieces, j, u, v);
    lemma_apart(a, b, u, v, k);
    assert(window.has((u, v)));
    assert(window.has((a, b)));
    assert(pieces.group_ink(root)((u, v)));
    assert(grown(pieces.group_ink(root), window, k)((a, b)));
}

/// What is closed in a group's window is closed on the page.
proof fn lemma_local_closes(pieces: Pieces, p: (int, int), root: int)
    requires
        0 <= pieces.reach < 255,
        0 <= root < pieces.chosen.len(),
        pieces.roots[root] == root,
        pieces.page().has(p),
        pieces.window(root).has(p),
        closed_ink(pieces.group_ink(root), pieces.window(root), pieces.reach)(p),
    ensures
        closed_ink(pieces.ink(), pieces.page(), pieces.reach)(p),
{
    let k = pieces.reach;
    let window = pieces.window(root);
    let page = pieces.page();
    let own = pieces.group_ink(root);
    lemma_window(pieces, root, root);
    assert(window.has((p.0, p.1)));
    assert(apart(p.0, p.1, p.0, p.1) <= square(k)) by (nonlinear_arith)
        requires
            apart(p.0, p.1, p.0, p.1) == square(p.0 - p.0) + square(p.1 - p.1),
            square(p.0 - p.0) == (p.0 - p.0) * (p.0 - p.0),
            square(p.1 - p.1) == (p.1 - p.1) * (p.1 - p.1),
            square(k) == k * k,
    ;
    assert(grown(grown(own, window, k), window, k)((p.0, p.1)));
    let (a, b) = choose|a: int, b: int| #[trigger]
        window.has((a, b)) && grown(own, window, k)((a, b)) && apart(p.0, p.1, a, b) <= square(k);
    let (u, v) = choose|u: int, v: int| #[trigger]
        window.has((u, v)) && own((u, v)) && apart(a, b, u, v) <= square(k);
    let j = choose|j: int|
        0 <= j < pieces.chosen.len() && pieces.roots[j] == root && #[trigger] pieces.mask(j).covers(
            u,
            v,
        );
    lemma_window(pieces, root, j);
    lemma_covers_framed(pieces, j, u, v);
    lemma_apart(p.0, p.1, a, b, k);
    lemma_apart(a, b, u, v, k);
    assert forall|x: int, y: int| #[trigger]
        page.has((x, y)) && apart(p.0, p.1, x, y) <= square(k) implies grown(
        grown(pieces.ink(), page, k),
        page,
        k,
    )((x, y)) by {
        lemma_apart(p.0, p.1, x, y, k);
        assert(window.has((x, y)));
        assert(grown(grown(own, window, k), window, k)((x, y)));
        let (c, d) = choose|c: int, d: int| #[trigger]
            window.has((c, d)) && grown(own, window, k)((c, d)) && apart(x, y, c, d) <= square(k);
        let (s, t) = choose|s: int, t: int| #[trigger]
            window.has((s, t)) && own((s, t)) && apart(c, d, s, t) <= square(k);
        let i = choose|i: int|
            0 <= i < pieces.chosen.len() && pieces.roots[i] == root && #[trigger] pieces.mask(
                i,
            ).covers(s, t);
        assert(page.has((s, t)));
        assert(pieces.ink()((s, t)));
        assert(page.has((c, d)));
        assert(grown(pieces.ink(), page, k)((c, d)));
    }
}

/// The detections for a label that have ink to close.
fn choose_masks(detections: &Vec<LayoutDetection>, label: &str) -> (result: Vec<usize>)
    ensures
        forall|j: int|
            0 <= j < result.len() ==> {
                &&& (#[trigger] result@[j]) < detections.len()
                &&& detections@[result@[j] as int].has_mask_label(label@)
                &&& detections@[result@[j] as int].mask.valid()
            },
        forall|i: int|
            0 <= i < detections.len() && (#[trigger] detections@[i]).has_mask_label(label@)
                && detections@[i].mask.valid() && detections@[i].mask.width > 0
                && detections@[i].mask.height > 0 ==> result@.contains(i as usize),
{
    let mut result: Vec<usize> = Vec::new();
    let mut index: usize = 0;
    while index < detections.len()
        invariant
            index <= detections.len(),
            forall|j: int|
                0 <= j < result.len() ==> {
                    &&& (#[trigger] result@[j]) < detections.len()
                    &&& detections@[result@[j] as int].has_mask_label(label@)
                    &&& detections@[result@[j] as int].mask.valid()
                },
            forall|i: int|
                0 <= i < index && (#[trigger] detections@[i]).has_mask_label(label@)
                    && detections@[i].mask.valid() && detections@[i].mask.width > 0
                    && detections@[i].mask.height > 0 ==> result@.contains(i as usize),
        decreases detections.len() - index,
    {
        let detection = &detections[index];
        let ghost before = result@;
        if matches_mask_label(detection, label) && valid_mask(&detection.mask)
            && detection.mask.width > 0 && detection.mask.height > 0 {
            result.push(index);
            proof {
                assert(result@[before.len() as int] == index);
            }
        }
        proof {
            assert forall|i: int|
                0 <= i < index && before.contains(i as usize) implies #[trigger] result@.contains(
                i as usize,
            ) by {
                let j = choose|j: int| 0 <= j < before.len() && before[j] == i as usize;
                assert(result@[j] == i as usize);
            }
        }
        index += 1;
    }
    result
}

/// Divides masks into groups so that those which can interact are in one group.
fn group_masks(
    detections: &Vec<LayoutDetection>,
    chosen: &Vec<usize>,
    size: ImageSize,
    radius: u8,
) -> (result: Vec<usize>)
    requires
        forall|j: int| 0 <= j < chosen.len() ==> (#[trigger] chosen@[j]) < detections.len(),
    ensures
        result.len() == chosen.len(),
        ({
            let pieces = Pieces {
                detections: detections@,
                chosen: chosen@,
                roots: result@.map_values(|root: usize| root as int),
                size,
                reach: radius as int,
            };
            &&& pieces.grouped()
            &&& forall|j: int|
                0 <= j < chosen.len() ==> 0 <= #[trigger] pieces.roots[j] < chosen.len()
                    && pieces.roots[pieces.roots[j]] == pieces.roots[j]
        }),
{
    let margin: u32 = radius as u32 * 2;
    let mut groups = Groups::new(chosen.len());
    let ghost pieces = Pieces {
        detections: detections@,
        chosen: chosen@,
        roots: Seq::empty(),
        size,
        reach: radius as int,
    };
    let mut left: usize = 0;
    while left < chosen.len()
        invariant
            left <= chosen.len(),
            margin == 2 * radius,
            forall|j: int| 0 <= j < chosen.len() ==> (#[trigger] chosen@[j]) < detections.len(),
            groups.well_formed(),
            groups@.len() == chosen.len(),
            pieces.detections == detections@,
            pieces.chosen == chosen@,
            pieces.size == size,
            pieces.reach == radius,
            forall|i: int, j: int|
                0 <= i < left && i < j < chosen.len() && touching(
                    padded(#[trigger] pieces.frame(i), margin as int, size),
                    padded(#[trigger] pieces.frame(j), margin as int, size),
                ) ==> groups@[i] == groups@[j],
        decreases chosen.len() - left,
    {
        let mut right: usize = left + 1;
        while right < chosen.len()
            invariant
                left < right <= chosen.len(),
                margin == 2 * radius,
                forall|j: int| 0 <= j < chosen.len() ==> (#[trigger] chosen@[j]) < detections.len(),
                groups.well_formed(),
                groups@.len() == chosen.len(),
                pieces.detections == detections@,
                pieces.chosen == chosen@,
                pieces.size == size,
                pieces.reach == radius,
                forall|i: int, j: int|
                    0 <= i < j < chosen.len() && (i < left || (i == left && j < right)) && touching(
                        padded(#[trigger] pieces.frame(i), margin as int, size),
                        padded(#[trigger] pieces.frame(j), margin as int, size),
                    ) ==> groups@[i] == groups@[j],
            decreases chosen.len() - right,
        {
            assert(chosen@[left as int] < detections.len());
            assert(chosen@[right as int] < detections.len());
            let left_rect = expand_mask_bounds(&detections[chosen[left]].mask, margin, size);
            let right_rect = expand_mask_bounds(&detections[chosen[right]].mask, margin, size);
            assert(left_rect == padded(pieces.frame(left as int), margin as int, size));
            assert(right_rect == padded(pieces.frame(right as int), margin as int, size));
            if rectangles_touch(left_rect, right_rect) {
                groups.union(left, right);
            }
            right += 1;
        }
        left += 1;
    }
    let mut result: Vec<usize> = Vec::new();
    let ghost roots = groups@;
    let mut index: usize = 0;
    while index < chosen.len()
        invariant
            index <= chosen.len(),
            groups.well_formed(),
            groups@ == roots,
            roots.len() == chosen.len(),
            result.len() == index,
            forall|j: int| 0 <= j < index ==> #[trigger] result@[j] == roots[j],
        decreases chosen.len() - index,
    {
        let root: usize = groups.find(index);
        result.push(root);
        index += 1;
    }
    proof {
        let done = Pieces {
            detections: detections@,
            chosen: chosen@,
            roots: result@.map_values(|root: usize| root as int),
            size,
            reach: radius as int,
        };
        assert(done.roots =~= roots);
        assert forall|i: int, j: int|
            0 <= i < done.chosen.len() && 0 <= j < done.chosen.len() && touching(
                padded(#[trigger] done.frame(i), 2 * done.reach, size),
                padded(#[trigger] done.frame(j), 2 * done.reach, size),
            ) implies done.roots[i] == done.roots[j] by {
            assert(done.frame(i) == pieces.frame(i));
            assert(done.frame(j) == pieces.frame(j));
        }
        groups.lemma_roots();
    }
    result
}

/// The rectangle in which a group of masks is closed.
fn group_window(
    detections: &Vec<LayoutDetection>,
    chosen: &Vec<usize>,
    roots: &Vec<usize>,
    root: usize,
    size: ImageSize,
    radius: u8,
    Ghost(pieces): Ghost<Pieces>,
) -> (result: Rect)
    requires
        forall|j: int| 0 <= j < chosen.len() ==> (#[trigger] chosen@[j]) < detections.len(),
        roots.len() == chosen.len(),
        root < chosen.len(),
        pieces == (Pieces {
            detections: detections@,
            chosen: chosen@,
            roots: roots@.map_values(|root: usize| root as int),
            size,
            reach: radius as int,
        }),
    ensures
        result == pieces.window(root as int),
{
    let mut hull: Option<Rect> = None;
    let mut index: usize = 0;
    while index < chosen.len()
        invariant
            index <= chosen.len(),
            forall|j: int| 0 <= j < chosen.len() ==> (#[trigger] chosen@[j]) < detections.len(),
            roots.len() == chosen.len(),
            pieces == (Pieces {
                detections: detections@,
                chosen: chosen@,
                roots: roots@.map_values(|root: usize| root as int),
                size,
                reach: radius as int,
            }),
            hull == pieces.hull(root as int, index as int),
        decreases chosen.len() - index,
    {
        assert(chosen@[index as int] < detections.len());
        if roots[index] == root {
            let rect = mask_bounds(&detections[chosen[index]].mask, size);
            assert(rect == pieces.frame(index as int));
            hull = match hull {
                Some(earlier) => Some(union_bounds(earlier, rect)),
                None => Some(rect),
            };
        }
        index += 1;
    }
    match hull {
        Some(rect) => expand_bounds(rect, radius as u32 * 3, size),
        None => Rect { left: 0, top: 0, right: 0, bottom: 0 },
    }
}

/// An image of the ink of one group, in its window.
fn stamp_group(
    detections: &Vec<LayoutDetection>,
    chosen: &Vec<usize>,
    roots: &Vec<usize>,
    root: usize,
    window: Rect,
    Ghost(pieces): Ghost<Pieces>,
) -> (result: GrayMask)
    requires
        forall|j: int|
            0 <= j < chosen.len() ==> (#[trigger] chosen@[j]) < detections.len()
                && detections@[chosen@[j] as int].mask.valid(),
        roots.len() == chosen.len(),
        window.left <= window.right,
        window.top <= window.bottom,
        (window.right - window.left) * (window.bottom - window.top) <= usize::MAX,
        pieces.detections == detections@,
        pieces.chosen == chosen@,
        pieces.roots == roots@.map_values(|root: usize| root as int),
    ensures
        shows(&result, pieces.group_ink(root as int), window),
{
    let mut image = GrayMask::new(window.right - window.left, window.bottom - window.top);
    let mut index: usize = 0;
    while index < chosen.len()
        invariant
            index <= chosen.len(),
            forall|j: int|
                0 <= j < chosen.len() ==> (#[trigger] chosen@[j]) < detections.len()
                    && detections@[chosen@[j] as int].mask.valid(),
            roots.len() == chosen.len(),
            window.left <= window.right,
            window.top <= window.bottom,
            pieces.detections == detections@,
            pieces.chosen == chosen@,
            pieces.roots == roots@.map_values(|root: usize| root as int),
            image.well_formed(),
            image.width == window.right - window.left,
            image.height == window.bottom - window.top,
            forall|x: int, y: int|
                image.contains_cell(x, y) ==> (#[trigger] image.at(x, y) != 0) == exists|j: int|
                    0 <= j < index && pieces.roots[j] == root && #[trigger] pieces.mask(j).covers(
                        x + window.left,
                        y + window.top,
                    ),
        decreases chosen.len() - index,
    {
        assert(chosen@[index as int] < detections.len());
        if roots[index] == root {
            let ghost before = image;
            stamp_mask(&mut image, &detections[chosen[index]].mask, window.left, window.top);
            proof {
                assert forall|x: int, y: int|
                    image.contains_cell(x, y) implies (#[trigger] image.at(x, y) != 0) == exists|
                    j: int,
                |
                    0 <= j < index + 1 && pieces.roots[j] == root && #[trigger] pieces.mask(
                        j,
                    ).covers(x + window.left, y + window.top) by {
                    assert(before.contains_cell(x, y));
                    assert(on_page(x + window.left, y + window.top));
                    let covered = pieces.mask(index as int).covers(
                        x + window.left,
                        y + window.top,
                    );
                    assert(image.at(x, y) == (if covered {
                        255u8
                    } else {
                        before.at(x, y)
                    }));
                    if before.at(x, y) != 0 {
                        let j = choose|j: int|
                            0 <= j < index && pieces.roots[j] == root && #[trigger] pieces.mask(
                                j,
                            ).covers(x + window.left, y + window.top);
                        assert(pieces.mask(j).covers(x + window.left, y + window.top));
                    }
                    if exists|j: int|
                        0 <= j < index + 1 && pieces.roots[j] == root && #[trigger] pieces.mask(
                            j,
                        ).covers(x + window.left, y + window.top) {
                        let j = choose|j: int|
                            0 <= j < index + 1 && pieces.roots[j] == root && #[trigger] pieces.mask(
                                j,
                            ).covers(x + window.left, y + window.top);
                        if j < index {
                            assert(before.at(x, y) != 0);
                        }
                    }
                }
            }
        }
        index += 1;
    }
    proof {
        let ink = pieces.group_ink(root as int);
        assert forall|x: int, y: int| #[trigger] window.has((x, y)) implies (image.at(
            x - window.left,
            y - window.top,
        ) != 0) == ink((x, y)) by {
            let (a, b) = (x - window.left, y - window.top);
            assert(image.contains_cell(a, b));
            assert(a + window.left == x && b + window.top == y);
            assert((image.at(a, b) != 0) == exists|j: int|
                0 <= j < chosen.len() && pieces.roots[j] == root && #[trigger] pieces.mask(
                    j,
                ).covers(a + window.left, b + window.top));
        }
    }
    image
}

/// The mask of all detections for a label, with the gaps in it closed.
pub fn closed_mask_for(
    detections: &Vec<LayoutDetection>,
    label: &str,
    size: ImageSize,
    radius: u8,
) -> (result: GrayMask)
    requires
        size.width * size.height <= usize::MAX,
        size.width <= MAX_IMAGE_SIDE,
        size.height <= MAX_IMAGE_SIDE,
    ensures
        result.well_formed(),
        result.width == size.width,
        result.height == size.height,
        forall|x: int, y: int|
            result.contains_cell(x, y) ==> #[trigger] result.at(x, y) == (if closed_ink(
                label_ink(detections@, label@),
                page_of(size),
                radius as int,
            )((x, y)) {
                255u8
            } else {
                0
            }),
{
    let chosen = choose_masks(detections, label);
    let mut output = GrayMask::new(size.width, size.height);
    let roots = group_masks(detections, &chosen, size, radius);
    let ghost pieces = Pieces {
        detections: detections@,
        chosen: chosen@,
        roots: roots@.map_values(|root: usize| root as int),
        size,
        reach: radius as int,
    };
    let mut root: usize = 0;
    while root < chosen.len()
        invariant
            root <= chosen.len(),
            size.width * size.height <= usize::MAX,
            size.width <= MAX_IMAGE_SIDE,
            size.height <= MAX_IMAGE_SIDE,
            forall|j: int|
                0 <= j < chosen.len() ==> (#[trigger] chosen@[j]) < detections.len()
                    && detections@[chosen@[j] as int].mask.valid(),
            roots.len() == chosen.len(),
            pieces == (Pieces {
                detections: detections@,
                chosen: chosen@,
                roots: roots@.map_values(|root: usize| root as int),
                size,
                reach: radius as int,
            }),
            output.well_formed(),
            output.width == size.width,
            output.height == size.height,
            forall|x: int, y: int|
                output.contains_cell(x, y) ==> #[trigger] output.at(x, y) == (if closed_among(
                    pieces,
                    root as int,
                    (x, y),
                ) {
                    255u8
                } else {
                    0
                }),
        decreases chosen.len() - root,
    {
        let ghost before = output;
        if roots[root] == root {
            let window = group_window(
                detections,
                &chosen,
                &roots,
                root,
                size,
                radius,
                Ghost(pieces),
            );
            proof {
                lemma_window(pieces, root as int, root as int);
            }
            if window.left < window.right && window.top < window.bottom {
                proof {
                    lemma_window_area(window, size);
                }
                let local = stamp_group(
                    detections,
                    &chosen,
                    &roots,
                    root,
                    window,
                    Ghost(pieces),
                );
                let thick = dilate(&local, radius);
                let closed = close(&thick, radius);
                proof {
                    lemma_closed_shows(
                        &closed,
                        &thick,
                        &local,
                        pieces.group_ink(root as int),
                        window,
                        radius,
                    );
                }
                paint(&mut output, &closed, window);
                proof {
                    lemma_painted(
                        pieces,
                        &before,
                        &closed,
                        &output,
                        root as int,
                    );
                }
            } else {
                proof {
                    assert forall|x: int, y: int| output.contains_cell(x, y) implies #[trigger] output.at(
                        x,
                        y,
                    ) == (if closed_among(pieces, root + 1, (x, y)) {
                        255u8
                    } else {
                        0
                    }) by {
                        lemma_closed_among_step(pieces, root as int, (x, y));
                        assert(before.at(x, y) == output.at(x, y));
                    }
                }
            }
        } else {
            proof {
                assert forall|x: int, y: int| output.contains_cell(x, y) implies #[trigger] output.at(
                    x,
                    y,
                ) == (if closed_among(pieces, root + 1, (x, y)) {
                    255u8
                } else {
                    0
                }) by {
                    lemma_closed_among_step(pieces, root as int, (x, y));
                    assert(before.at(x, y) == output.at(x, y));
                }
            }
        }
        root += 1;
    }
    proof {
        let ink = label_ink(detections@, label@);
        assert(detections@.len() == detections.len());
        assert forall|at: (int, int)| #[trigger] ink(at) == pieces.ink()(at) by {
            lemma_pieces_ink(pieces, label@, at);
        }
        assert(ink =~= pieces.ink());
        assert forall|x: int, y: int| output.contains_cell(x, y) implies #[trigger] output.at(x, y)
            == (if closed_ink(ink, page_of(size), radius as int)((x, y)) {
            255u8
        } else {
            0
        }) by {
            if radius < 255 {
                lemma_local_closing(pieces, (x, y));
            }
            lemma_closed_among_all(pieces, (x, y));
        }
    }
    output
}

/// The closed ink of one of the first groups covers the place.
spec fn closed_among(pieces: Pieces, end: int, at: (int, int)) -> bool {
    exists|root: int|
        0 <= root < end && pieces.roots[root] == root && #[trigger] pieces.window(root).has(at)
            && closed_ink(pieces.group_ink(root), pieces.window(root), pieces.reach)(at)
}

proof fn lemma_closed_among_step(pieces: Pieces, root: int, at: (int, int))
    requires
        0 <= root,
    ensures
        closed_among(pieces, root + 1, at) == (closed_among(pieces, root, at) || (
        pieces.roots[root] == root && pieces.window(root).has(at) && closed_ink(
            pieces.group_ink(root),
            pieces.window(root),
            pieces.reach,
        )(at))),
{
    if closed_among(pieces, root, at) {
        let r = choose|r: int|
            0 <= r < root && pieces.roots[r] == r && #[trigger] pieces.window(r).has(at)
                && closed_ink(pieces.group_ink(r), pieces.window(r), pieces.reach)(at);
        assert(pieces.window(r).has(at));
    }
}

proof fn lemma_closed_among_all(pieces: Pieces, at: (int, int))
    ensures
        closed_among(pieces, pieces.chosen.len() as int, at) == pieces.locally_closed(at),
        pieces.reach == 255 ==> !pieces.locally_closed(at),
{
}

proof fn lemma_window_area(window: Rect, size: ImageSize)
    requires
        page_of(size).includes(window),
        window.left <= window.right,
        window.top <= window.bottom,
    ensures
        (window.right - window.left) * (window.bottom - window.top) <= size.width * size.height,
{
    let (w, h) = (window.right - window.left, window.bottom - window.top);
    assert(w * h <= size.width * size.height) by (nonlinear_arith)
        requires
            0 <= w <= size.width,
            0 <= h <= size.height,
    ;
}

/// Turns white what is not black in an image of a rectangle.
fn paint(output: &mut GrayMask, image: &GrayMask, rect: Rect)
    requires
        old(output).well_formed(),
        image.well_formed(),
        rect.left <= rect.right <= old(output).width,
        rect.top <= rect.bottom <= old(output).height,
        image.width == rect.right - rect.left,
        image.height == rect.bottom - rect.top,
    ensures
        final(output).well_formed(),
        final(output).width == old(output).width,
        final(output).height == old(output).height,
        forall|x: int, y: int|
            old(output).contains_cell(x, y) ==> #[trigger] final(output).at(x, y) == (if rect.has(
                (x, y),
            ) && image.at(x - rect.left, y - rect.top) != 0 {
                255u8
            } else {
                old(output).at(x, y)
            }),
{
    let mut y: u32 = 0;
    while y < image.height
        invariant
            y <= image.height,
            image.well_formed(),
            output.well_formed(),
            output.width == old(output).width,
            output.height == old(output).height,
            rect.left <= rect.right <= output.width,
            rect.top <= rect.bottom <= output.height,
            image.width == rect.right - rect.left,
            image.height == rect.bottom - rect.top,
            forall|u: int, v: int|
                old(output).contains_cell(u, v) ==> #[trigger] output.at(u, v) == (if rect.has(
                    (u, v),
                ) && image.at(u - rect.left, v - rect.top) != 0 && v - rect.top < y {
                    255u8
                } else {
                    old(output).at(u, v)
                }),
        decreases image.height - y,
    {
        let mut x: u32 = 0;
        while x < image.width
            invariant
                x <= image.width,
                y < image.height,
                image.well_formed(),
                output.well_formed(),
                output.width == old(output).width,
                output.height == old(output).height,
                rect.left <= rect.right <= output.width,
                rect.top <= rect.bottom <= output.height,
                image.width == rect.right - rect.left,
                image.height == rect.bottom - rect.top,
                forall|u: int, v: int|
                    old(output).contains_cell(u, v) ==> #[trigger] output.at(u, v) == (if rect.has(
                        (u, v),
                    ) && image.at(u - rect.left, v - rect.top) != 0 && (v - rect.top < y || (v
                        - rect.top == y && u - rect.left < x)) {
                        255u8
                    } else {
                        old(output).at(u, v)
                    }),
            decreases image.width - x,
        {
            if image.get(x, y) != 0 {
                output.put(rect.left + x, rect.top + y, 255);
            }
            x += 1;
        }
        y += 1;
    }
}

proof fn lemma_painted(
    pieces: Pieces,
    before: &GrayMask,
    closed: &GrayMask,
    after: &GrayMask,
    root: int,
)
    requires
        0 <= root < pieces.roots.len(),
        pieces.roots[root] == root,
        before.width == pieces.size.width,
        before.height == pieces.size.height,
        after.width == before.width,
        after.height == before.height,
        forall|x: int, y: int|
            before.contains_cell(x, y) ==> #[trigger] before.at(x, y) == (if closed_among(
                pieces,
                root,
                (x, y),
            ) {
                255u8
            } else {
                0
            }),
        forall|x: int, y: int| #[trigger]
            pieces.window(root).has((x, y)) ==> closed.at(
                x - pieces.window(root).left,
                y - pieces.window(root).top,
            ) == (if closed_ink(pieces.group_ink(root), pieces.window(root), pieces.reach)((x, y)) {
                255u8
            } else {
                0
            }),
        forall|x: int, y: int|
            before.contains_cell(x, y) ==> #[trigger] after.at(x, y) == (if pieces.window(root).has(
                (x, y),
            ) && closed.at(x - pieces.window(root).left, y - pieces.window(root).top) != 0 {
                255u8
            } else {
                before.at(x, y)
            }),
    ensures
        forall|x: int, y: int|
            after.contains_cell(x, y) ==> #[trigger] after.at(x, y) == (if closed_among(
                pieces,
                root + 1,
                (x, y),
            ) {
                255u8
            } else {
                0
            }),
{
    assert forall|x: int, y: int| after.contains_cell(x, y) implies #[trigger] after.at(x, y) == (
    if closed_among(pieces, root + 1, (x, y)) {
        255u8
    } else {
        0
    }) by {
        assert(before.contains_cell(x, y));
        lemma_closed_among_step(pieces, root, (x, y));
        assert(before.at(x, y) == (if closed_among(pieces, root, (x, y)) {
            255u8
        } else {
            0
        }));
        if pieces.window(root).has((x, y)) {
            assert(closed.at(x - pieces.window(root).left, y - pieces.window(root).top) == (
            if closed_ink(pieces.group_ink(root), pieces.window(root), pieces.reach)((x, y)) {
                255u8
            } else {
                0
            }));
        }
    }
}

/// The chosen masks have the ink of all detections for the label.
proof fn lemma_pieces_ink(pieces: Pieces, label: Seq<char>, at: (int, int))
    requires
        forall|j: int|
            0 <= j < pieces.chosen.len() ==> {
                &&& (#[trigger] pieces.chosen[j]) < pieces.detections.len()
                &&& pieces.detections[pieces.chosen[j] as int].has_mask_label(label)
                &&& pieces.detections[pieces.chosen[j] as int].mask.valid()
            },
        forall|i: int|
            0 <= i < pieces.detections.len() && (#[trigger] pieces.detections[i]).has_mask_label(
                label,
            ) && pieces.detections[i].mask.valid() && pieces.detections[i].mask.width > 0
                && pieces.detections[i].mask.height > 0 ==> pieces.chosen.contains(i as usize),
        pieces.detections.len() <= usize::MAX,
    ensures
        label_ink(pieces.detections, label)(at) == pieces.ink()(at),
{
    let detections = pieces.detections;
    if label_ink(detections, label)(at) {
        let i = choose|i: int|
            0 <= i < detections.len() && (#[trigger] detections[i]).has_mask_label(label)
                && detections[i].mask.valid() && detections[i].mask.covers(at.0, at.1);
        assert(pieces.chosen.contains(i as usize));
        let j = choose|j: int| 0 <= j < pieces.chosen.len() && pieces.chosen[j] == i as usize;
        assert(pieces.mask(j).covers(at.0, at.1));
    }
    if pieces.ink()(at) {
        let j = choose|j: int|
            0 <= j < pieces.chosen.len() && #[trigger] pieces.mask(j).covers(at.0, at.1);
        assert(pieces.chosen[j] < detections.len());
        let i = pieces.chosen[j] as int;
        assert(detections[i].has_mask_label(label));
    }
}

/// Closing the gaps group by group gives the same mask as dilating and closing the mask of
/// the whole page.
pub proof fn law_closing_is_local(
    detections: Seq<LayoutDetection>,
    label: Seq<char>,
    size: ImageSize,
    radius: u8,
    result: &GrayMask,
    mask: &GrayMask,
    thick: &GrayMask,
    closed: &GrayMask,
)
    requires
        result.well_formed(),
        result.width == size.width,
        result.height == size.height,
        forall|x: int, y: int|
            result.contains_cell(x, y) ==> #[trigger] result.at(x, y) == (if closed_ink(
                label_ink(detections, label),
                page_of(size),
                radius as int,
            )((x, y)) {
                255u8
            } else {
                0
            }),
        is_mask_for(mask, detections, label, size),
        is_dilated(thick, mask, radius),
        is_closed(closed, thick, radius),
    ensures
        forall|x: int, y: int|
            result.contains_cell(x, y) ==> #[trigger] result.at(x, y) == closed.at(x, y),
{
    let page = page_of(size);
    let ink = label_ink(detections, label);
    assert forall|x: int, y: int| #[trigger] page.has((x, y)) implies (mask.at(
        x - page.left,
        y - page.top,
    ) != 0) == ink((x, y)) by {
        assert(mask.contains_cell(x, y));
        assert(mask.at(x, y) == (if inked(detections, label, x, y) {
            255u8
        } else {
            0
        }));
    }
    assert(shows(mask, ink, page));
    lemma_closed_shows(closed, thick, mask, ink, page, radius);
    assert forall|x: int, y: int| result.contains_cell(x, y) implies #[trigger] result.at(x, y)
        == closed.at(x, y) by {
        assert(page.has((x, y)));
        assert(closed.at(x - page.left, y - page.top) == closed.at(x, y));
    }
}

/// Closing gaps loses no ink, and no place within the reach of ink either.
pub proof fn law_closing_keeps_the_ink(
    ink: spec_fn((int, int)) -> bool,
    rect: Rect,
    reach: int,
    x: int,
    y: int,
    near: (int, int),
)
    requires
        0 <= reach < 255,
        rect.has((x, y)),
        rect.has(near),
        ink(near),
        apart(x, y, near.0, near.1) <= square(reach),
    ensures
        closed_ink(ink, rect, reach)((x, y)),
        closed_ink(ink, rect, reach)(near),
{
    lemma_grown_is_closed(ink, rect, reach, x, y, near);
    assert(apart(near.0, near.1, near.0, near.1) <= square(reach)) by {
        assert(0 * 0 == 0 && reach * reach >= 0) by (nonlinear_arith);
    }
    lemma_grown_is_closed(ink, rect, reach, near.0, near.1, near);
}

proof fn lemma_grown_is_closed(
    ink: spec_fn((int, int)) -> bool,
    rect: Rect,
    reach: int,
    x: int,
    y: int,
    near: (int, int),
)
    requires
        0 <= reach < 255,
        rect.has((x, y)),
        rect.has(near),
        ink(near),
        apart(x, y, near.0, near.1) <= square(reach),
    ensures
        closed_ink(ink, rect, reach)((x, y)),
{
    let once = grown(ink, rect, reach);
    let twice = grown(once, rect, reach);
    assert(once((x, y))) by {
        assert(rect.has((near.0, near.1)) && ink((near.0, near.1)));
    }
    assert forall|u: int, v: int| #[trigger]
        rect.has((u, v)) && apart(x, y, u, v) <= square(reach) implies twice((u, v)) by {
        assert(apart(u, v, x, y) == apart(x, y, u, v)) by {
            let (a, b) = (x - u, y - v);
            assert(a * a == (-a) * (-a) && b * b == (-b) * (-b)) by (nonlinear_arith);
            assert(u - x == -a && v - y == -b);
        }
        assert(rect.has((x, y)) && once((x, y)));
    }
}

/// Without ink there is nothing to close.
pub proof fn law_nothing_is_closed_without_ink(
    ink: spec_fn((int, int)) -> bool,
    rect: Rect,
    reach: int,
    x: int,
    y: int,
)
    requires
        0 <= reach,
        rect.has((x, y)),
        forall|u: int, v: int| rect.has((u, v)) ==> !#[trigger] ink((u, v)),
    ensures
        !closed_ink(ink, rect, reach)((x, y)),
{
    let once = grown(ink, rect, reach);
    let twice = grown(once, rect, reach);
    assert(apart(x, y, x, y) <= square(reach)) by {
        assert(0 * 0 == 0 && reach * reach >= 0) by (nonlinear_arith)
            requires
                0 <= reach,
        ;
    }
    assert forall|u: int, v: int| !#[trigger] once((u, v)) by {}
    assert(!twice((x, y)));
}

/// The rectangle around two others holds all that either of them holds, and lies in every rectangle
/// that does.
pub proof fn law_joined_rectangles(left: Rect, right: Rect, other: Rect, at: (int, int))
    ensures
        left.has(at) || right.has(at) ==> joined(left, right).has(at),
        other.includes(left) && other.includes(right) ==> other.includes(joined(left, right)),
        joined(left, right) == joined(right, left),
{
}

/// The frame of a mask holds exactly those places of its rectangle that lie on the page.
pub proof fn law_frames_lie_on_the_page(mask: &LayoutMask, size: ImageSize, x: int, y: int)
    ensures
        frame_of(mask, size).has((x, y)) <==> mask.x <= x < mask.x + mask.width && mask.y <= y
            < mask.y + mask.height && x < size.width && y < size.height,
{
}

/// A margin around a rectangle holds exactly those places of the page that are no farther from it
/// than that to any side.
pub proof fn law_margins_lie_on_the_page(
    rect: Rect,
    margin: int,
    size: ImageSize,
    x: int,
    y: int,
)
    requires
        0 <= margin,
        rect.left < rect.right <= size.width,
        rect.top < rect.bottom <= size.height,
    ensures
        padded(rect, margin, size).has((x, y)) <==> 0 <= x < size.width && 0 <= y < size.height
            && rect.left - margin <= x < rect.right + margin && rect.top - margin <= y
            < rect.bottom + margin,
{
}

} // verus!
