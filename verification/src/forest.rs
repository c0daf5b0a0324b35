//! A rectangular grid of tree heights, scanned for visibility.
//!
//! A cell is visible from an edge when every cell between it and that edge
//! is strictly lower. A cell's scenic score multiplies, over the four
//! cardinal directions, how many trees it sees before its view is blocked
//! by one at least as tall.

use vstd::prelude::*;
use vstd::string::*;

use crate::text::{ParseError, all_digits, digit_val, is_digit, spec_lines};

verus! {

/// A grid coordinate: column first, then row.
#[derive(Debug, Copy, Clone, Eq, PartialEq, Hash, Structural)]
pub struct Coord(pub usize, pub usize);

/// One grid cell: its coordinates and its height.
#[derive(Debug, Clone, Copy, PartialEq, Eq, Hash, Structural)]
pub struct Tree {
    pub x: usize,
    pub y: usize,
    pub height: u8,
}

impl Tree {
    /// The cell at `(x, y)` with height `height`.
    pub fn new(x: usize, y: usize, height: u8) -> (r: Self)
        ensures
            r == (Tree { x, y, height }),
    {
        Tree { x, y, height }
    }
}

/// A rectangular grid of heights, stored row-major.
#[derive(Debug)]
pub struct Forest2 {
    width: usize,
    height: usize,
    data: Vec<u8>,
}

impl Forest2 {
    /// The number of columns.
    pub closed spec fn spec_width(&self) -> int {
        self.width as int
    }

    /// The number of rows.
    pub closed spec fn spec_height(&self) -> int {
        self.height as int
    }

    /// The heights, row-major.
    pub closed spec fn spec_data(&self) -> Seq<u8> {
        self.data@
    }

    /// The grid is rectangular: it stores one height per cell.
    pub open spec fn wf(&self) -> bool {
        self.spec_data().len() == self.spec_width() * self.spec_height()
    }

    /// The height stored at column `x` of row `y`.
    pub open spec fn height_at(&self, x: int, y: int) -> int
        recommends
            self.wf(),
            0 <= x < self.spec_width(),
            0 <= y < self.spec_height(),
    {
        self.spec_data()[y * self.spec_width() + x] as int
    }

    /// Whether every cell strictly left of `(x, y)` in its row is lower.
    pub open spec fn visible_from_left(&self, x: int, y: int) -> bool {
        forall|i: int| 0 <= i < x ==> #[trigger] self.height_at(i, y) < self.height_at(x, y)
    }

    /// Whether every cell strictly right of `(x, y)` in its row is lower.
    pub open spec fn visible_from_right(&self, x: int, y: int) -> bool {
        forall|i: int|
            x < i < self.spec_width() ==> #[trigger] self.height_at(i, y) < self.height_at(x, y)
    }

    /// Whether every cell strictly above `(x, y)` in its column is lower.
    pub open spec fn visible_from_top(&self, x: int, y: int) -> bool {
        forall|j: int| 0 <= j < y ==> #[trigger] self.height_at(x, j) < self.height_at(x, y)
    }

    /// Whether every cell strictly below `(x, y)` in its column is lower.
    pub open spec fn visible_from_bottom(&self, x: int, y: int) -> bool {
        forall|j: int|
            y < j < self.spec_height() ==> #[trigger] self.height_at(x, j) < self.height_at(x, y)
    }

    /// Whether `(x, y)` is visible from at least one of the four edges.
    pub open spec fn visible(&self, x: int, y: int) -> bool {
        self.visible_from_left(x, y) || self.visible_from_right(x, y) || self.visible_from_top(
            x,
            y,
        ) || self.visible_from_bottom(x, y)
    }

    /// The number of columns.
    pub fn width(&self) -> (r: usize)
        ensures
            r == self.spec_width(),
    {
        self.width
    }

    /// The number of rows.
    pub fn height(&self) -> (r: usize)
        ensures
            r == self.spec_height(),
    {
        self.height
    }

    /// The height stored at column `x` of row `y`.
    pub fn get(&self, x: usize, y: usize) -> (r: u8)
        requires
            self.wf(),
            x < self.spec_width(),
            y < self.spec_height(),
        ensures
            r == self.height_at(x as int, y as int),
    {
        let len: usize = self.data.len();
        proof {
            assert(y * self.spec_width() + x < self.spec_width() * self.spec_height())
                by (nonlinear_arith)
                requires
                    0 <= x < self.spec_width(),
                    0 <= y < self.spec_height(),
            ;
            assert(y * self.spec_width() + x < len);
        }
        self.data[y * self.width + x]
    }

    /// Whether the cell at `(x, y)` is visible from some edge: every cell
    /// between it and that edge, along the row or column, is strictly lower.
    pub fn is_visible(&self, x: usize, y: usize) -> (b: bool)
        requires
            self.wf(),
            x < self.spec_width(),
            y < self.spec_height(),
        ensures
            b == self.visible(x as int, y as int),
    {
        let h0: u8 = self.get(x, y);

        let mut vis_left = true;
        let mut i: usize = 0;
        while i < x
            invariant
                0 <= i <= x < self.spec_width(),
                y < self.spec_height(),
                self.wf(),
                h0 == self.height_at(x as int, y as int),
                vis_left <==> forall|k: int|
                    0 <= k < i ==> #[trigger] self.height_at(k, y as int) < h0,
            decreases x - i,
        {
            if self.get(i, y) >= h0 {
                vis_left = false;
            }
            i = i + 1;
        }
        if vis_left {
            return true;
        }

        let mut vis_right = true;
        let mut i: usize = x + 1;
        while i < self.width
            invariant
                x < i <= self.spec_width(),
                y < self.spec_height(),
                self.wf(),
                h0 == self.height_at(x as int, y as int),
                vis_right <==> forall|k: int|
                    x < k < i ==> #[trigger] self.height_at(k, y as int) < h0,
            decreases self.spec_width() - i,
        {
            if self.get(i, y) >= h0 {
                vis_right = false;
            }
            i = i + 1;
        }
        if vis_right {
            return true;
        }

        let mut vis_top = true;
        let mut j: usize = 0;
        while j < y
            invariant
                0 <= j <= y < self.spec_height(),
                x < self.spec_width(),
                self.wf(),
                h0 == self.height_at(x as int, y as int),
                vis_top <==> forall|k: int|
                    0 <= k < j ==> #[trigger] self.height_at(x as int, k) < h0,
            decreases y - j,
        {
            if self.get(x, j) >= h0 {
                vis_top = false;
            }
            j = j + 1;
        }
        if vis_top {
            return true;
        }

        let mut vis_bottom = true;
        let mut j: usize = y + 1;
        while j < self.height
            invariant
                y < j <= self.spec_height(),
                x < self.spec_width(),
                self.wf(),
                h0 == self.height_at(x as int, y as int),
                vis_bottom <==> forall|k: int|
                    y < k < j ==> #[trigger] self.height_at(x as int, k) < h0,
            decreases self.spec_height() - j,
        {
            if self.get(x, j) >= h0 {
                vis_bottom = false;
            }
            j = j + 1;
        }
        vis_bottom
    }

    /// All cells visible from some edge, each exactly once, gathered over
    /// the whole grid. The length of the result is the number of visible
    /// cells.
    pub fn visible_from_edge(&self) -> (r: Vec<Coord>)
        requires
            self.wf(),
        ensures
            forall|c: Coord|
                #[trigger] r@.contains(c) <==> c.0 < self.spec_width() && c.1 < self.spec_height()
                    && self.visible(c.0 as int, c.1 as int),
            r@.no_duplicates(),
    {
        let mut r: Vec<Coord> = Vec::new();
        let mut y: usize = 0;
        while y < self.height
            invariant
                0 <= y <= self.spec_height(),
                self.wf(),
                forall|c: Coord|
                    #[trigger] r@.contains(c) <==> c.0 < self.spec_width() && c.1 < y
                        && self.visible(c.0 as int, c.1 as int),
                r@.no_duplicates(),
            decreases self.spec_height() - y,
        {
            let mut x: usize = 0;
            while x < self.width
                invariant
                    0 <= x <= self.spec_width(),
                    y < self.spec_height(),
                    self.wf(),
                    forall|c: Coord|
                        #[trigger] r@.contains(c) <==> (c.0 < self.spec_width() && c.1 < y
                            && self.visible(c.0 as int, c.1 as int)) || (c.0 < x && c.1 == y
                            && self.visible(c.0 as int, c.1 as int)),
                    r@.no_duplicates(),
                decreases self.spec_width() - x,
            {
                if self.is_visible(x, y) {
                    let ghost prev = r@;
                    r.push(Coord(x, y));
                    proof {
                        assert(r@ =~= prev.push(Coord(x, y)));
                        assert(r@[prev.len() as int] == Coord(x, y));
                        assert forall|c: Coord| #[trigger] r@.contains(c) implies (c.0
                            < self.spec_width() && c.1 < y && self.visible(c.0 as int, c.1 as int))
                            || (c.0 < x + 1 && c.1 == y && self.visible(
                            c.0 as int,
                            c.1 as int,
                        )) by {
                            let idx = choose|idx: int| 0 <= idx < r@.len() && r@[idx] == c;
                            if idx < prev.len() {
                                assert(prev.contains(c));
                            }
                        }
                        assert forall|c: Coord|
                            (c.0 < self.spec_width() && c.1 < y && self.visible(
                                c.0 as int,
                                c.1 as int,
                            )) || (c.0 < x + 1 && c.1 == y && self.visible(
                                c.0 as int,
                                c.1 as int,
                            )) implies #[trigger] r@.contains(c) by {
                            if c.0 < x && c.1 == y || c.1 < y {
                                assert(prev.contains(c));
                                let idx = choose|idx: int| 0 <= idx < prev.len() && prev[idx] == c;
                                assert(r@[idx] == c);
                            } else {
                                assert(c == Coord(x, y));
                                assert(r@[prev.len() as int] == c);
                            }
                        }
                        assert(!prev.contains(Coord(x, y)));
                        assert forall|a: int, b: int|
                            0 <= a < r@.len() && 0 <= b < r@.len() && a != b implies r@[a]
                            != r@[b] by {
                            if a < prev.len() && b < prev.len() {
                                assert(prev.no_duplicates());
                            } else if a < prev.len() {
                                assert(prev.contains(r@[a]));
                            } else if b < prev.len() {
                                assert(prev.contains(r@[b]));
                            }
                        }
                    }
                }
                x = x + 1;
            }
            y = y + 1;
        }
        r
    }
}

/// Every cell on the grid's perimeter is visible from its nearest edge.
pub proof fn lemma_perimeter_visible(g: &Forest2, x: int, y: int)
    requires
        g.wf(),
        0 <= x < g.spec_width(),
        0 <= y < g.spec_height(),
        x == 0 || y == 0 || x == g.spec_width() - 1 || y == g.spec_height() - 1,
    ensures
        g.visible(x, y),
{
}


impl Forest2 {
    /// How many trees a viewer of height `h0` sees along row `y` looking
    /// left from column `i` inward: the count stops at, and includes, the
    /// first tree at least `h0` tall, or at the grid edge.
    pub open spec fn look_left(&self, y: int, h0: int, i: int) -> int
        recommends
            self.wf(),
            0 <= y < self.spec_height(),
            i < self.spec_width(),
        decreases i + 1,
    {
        if i < 0 {
            0
        } else if self.height_at(i, y) >= h0 {
            1
        } else {
            1 + self.look_left(y, h0, i - 1)
        }
    }

    /// As `look_left`, looking right from column `i` outward.
    pub open spec fn look_right(&self, y: int, h0: int, i: int) -> int
        recommends
            self.wf(),
            0 <= y < self.spec_height(),
            0 <= i,
        decreases self.spec_width() - i,
    {
        if i < 0 || i >= self.spec_width() {
            0
        } else if self.height_at(i, y) >= h0 {
            1
        } else {
            1 + self.look_right(y, h0, i + 1)
        }
    }

    /// As `look_left`, looking up along column `x` from row `j` inward.
    pub open spec fn look_up(&self, x: int, h0: int, j: int) -> int
        recommends
            self.wf(),
            0 <= x < self.spec_width(),
            j < self.spec_height(),
        decreases j + 1,
    {
        if j < 0 {
            0
        } else if self.height_at(x, j) >= h0 {
            1
        } else {
            1 + self.look_up(x, h0, j - 1)
        }
    }

    /// As `look_left`, looking down along column `x` from row `j` outward.
    pub open spec fn look_down(&self, x: int, h0: int, j: int) -> int
        recommends
            self.wf(),
            0 <= x < self.spec_width(),
            0 <= j,
        decreases self.spec_height() - j,
    {
        if j < 0 || j >= self.spec_height() {
            0
        } else if self.height_at(x, j) >= h0 {
            1
        } else {
            1 + self.look_down(x, h0, j + 1)
        }
    }

    /// The viewing distance of the cell at `(x, y)` in each of the four
    /// directions, multiplied together.
    pub open spec fn spec_scenic(&self, x: int, y: int) -> int
        recommends
            self.wf(),
            0 <= x < self.spec_width(),
            0 <= y < self.spec_height(),
    {
        let h0 = self.height_at(x, y);
        self.look_left(y, h0, x - 1) * self.look_right(y, h0, x + 1) * self.look_up(x, h0, y - 1)
            * self.look_down(x, h0, y + 1)
    }

    /// Counts the trees seen looking left from `(x, y)`.
    fn count_left(&self, x: usize, y: usize, h0: u8) -> (r: usize)
        requires
            self.wf(),
            x < self.spec_width(),
            y < self.spec_height(),
        ensures
            r == self.look_left(y as int, h0 as int, x - 1),
            r <= x,
    {
        let mut i: usize = x;
        let mut cnt: usize = 0;
        while i > 0
            invariant
                0 <= i <= x < self.spec_width(),
                y < self.spec_height(),
                self.wf(),
                cnt == x - i,
                self.look_left(y as int, h0 as int, x - 1) == cnt + self.look_left(
                    y as int,
                    h0 as int,
                    i - 1,
                ),
            decreases i,
        {
            let h: u8 = self.get(i - 1, y);
            cnt = cnt + 1;
            if h >= h0 {
                return cnt;
            }
            i = i - 1;
        }
        cnt
    }

    /// Counts the trees seen looking right from `(x, y)`.
    fn count_right(&self, x: usize, y: usize, h0: u8) -> (r: usize)
        requires
            self.wf(),
            x < self.spec_width(),
            y < self.spec_height(),
        ensures
            r == self.look_right(y as int, h0 as int, x + 1),
            x + r < self.spec_width(),
    {
        let w: usize = self.width;
        let mut i: usize = x + 1;
        let mut cnt: usize = 0;
        while i < w
            invariant
                x < i <= w,
                w == self.spec_width(),
                y < self.spec_height(),
                self.wf(),
                cnt == i - x - 1,
                self.look_right(y as int, h0 as int, x + 1) == cnt + self.look_right(
                    y as int,
                    h0 as int,
                    i as int,
                ),
            decreases w - i,
        {
            let h: u8 = self.get(i, y);
            cnt = cnt + 1;
            if h >= h0 {
                return cnt;
            }
            i = i + 1;
        }
        cnt
    }

    /// Counts the trees seen looking up from `(x, y)`.
    fn count_up(&self, x: usize, y: usize, h0: u8) -> (r: usize)
        requires
            self.wf(),
            x < self.spec_width(),
            y < self.spec_height(),
        ensures
            r == self.look_up(x as int, h0 as int, y - 1),
            r <= y,
    {
        let mut j: usize = y;
        let mut cnt: usize = 0;
        while j > 0
            invariant
                0 <= j <= y < self.spec_height(),
                x < self.spec_width(),
                self.wf(),
                cnt == y - j,
                self.look_up(x as int, h0 as int, y - 1) == cnt + self.look_up(
                    x as int,
                    h0 as int,
                    j - 1,
                ),
            decreases j,
        {
            let h: u8 = self.get(x, j - 1);
            cnt = cnt + 1;
            if h >= h0 {
                return cnt;
            }
            j = j - 1;
        }
        cnt
    }

    /// Counts the trees seen looking down from `(x, y)`.
    fn count_down(&self, x: usize, y: usize, h0: u8) -> (r: usize)
        requires
            self.wf(),
            x < self.spec_width(),
            y < self.spec_height(),
        ensures
            r == self.look_down(x as int, h0 as int, y + 1),
            y + r < self.spec_height(),
    {
        let hh: usize = self.height;
        let mut j: usize = y + 1;
        let mut cnt: usize = 0;
        while j < hh
            invariant
                y < j <= hh,
                hh == self.spec_height(),
                x < self.spec_width(),
                self.wf(),
                cnt == j - y - 1,
                self.look_down(x as int, h0 as int, y + 1) == cnt + self.look_down(
                    x as int,
                    h0 as int,
                    j as int,
                ),
            decreases hh - j,
        {
            let h: u8 = self.get(x, j);
            cnt = cnt + 1;
            if h >= h0 {
                return cnt;
            }
            j = j + 1;
        }
        cnt
    }

    /// The scenic score of the cell at `(x, y)`: for each of the four
    /// directions, the number of trees seen walking outward until one at
    /// least as tall blocks the view (that tree included) or the edge is
    /// reached; the four counts multiplied.
    pub fn scenic_score(&self, x: usize, y: usize) -> (r: u128)
        requires
            self.wf(),
            x < self.spec_width(),
            y < self.spec_height(),
        ensures
            r == self.spec_scenic(x as int, y as int),
    {
        let h0: u8 = self.get(x, y);
        let l: usize = self.count_left(x, y, h0);
        let rr: usize = self.count_right(x, y, h0);
        let u: usize = self.count_up(x, y, h0);
        let d: usize = self.count_down(x, y, h0);
        let ghost wd = self.spec_width();
        let ghost ht = self.spec_height();
        let cells: usize = self.data.len();
        proof {
            assert(cells == wd * ht);
            assert(4 * (l * rr) <= (wd - 1) * (wd - 1)) by (nonlinear_arith)
                requires
                    0 <= l,
                    0 <= rr,
                    l + rr <= wd - 1,
            ;
            assert(4 * (u * d) <= (ht - 1) * (ht - 1)) by (nonlinear_arith)
                requires
                    0 <= u,
                    0 <= d,
                    u + d <= ht - 1,
            ;
            assert((l * rr) * (u * d) <= (wd * ht) * (wd * ht)) by (nonlinear_arith)
                requires
                    0 <= l * rr,
                    0 <= u * d,
                    4 * (l * rr) <= (wd - 1) * (wd - 1),
                    4 * (u * d) <= (ht - 1) * (ht - 1),
                    1 <= wd,
                    1 <= ht,
            ;
            assert((l * rr) * u <= (wd * ht) * (wd * ht)) by (nonlinear_arith)
                requires
                    0 <= l * rr,
                    4 * (l * rr) <= (wd - 1) * (wd - 1),
                    0 <= u <= ht - 1,
                    1 <= wd,
                    1 <= ht,
            ;
            assert(l * rr <= (wd * ht) * (wd * ht)) by (nonlinear_arith)
                requires
                    0 <= l * rr,
                    4 * (l * rr) <= (wd - 1) * (wd - 1),
                    1 <= wd,
                    1 <= ht,
            ;
            assert((wd * ht) * (wd * ht) < 0x100000000000000000000000000000000) by (nonlinear_arith)
                requires
                    0 <= wd * ht <= 0xffffffffffffffff,
            ;
            assert(((l * rr) * u) * d == (l * rr) * (u * d)) by (nonlinear_arith);
        }
        (l as u128) * (rr as u128) * (u as u128) * (d as u128)
    }

    /// The largest scenic score over all cells of the grid, or 0 for a
    /// grid with no cells.
    pub fn max_scenic_score(&self) -> (r: u128)
        requires
            self.wf(),
        ensures
            (self.spec_width() == 0 || self.spec_height() == 0) ==> r == 0,
            (self.spec_width() > 0 && self.spec_height() > 0) ==> {
                &&& exists|x: int, y: int|
                    0 <= x < self.spec_width() && 0 <= y < self.spec_height() && r
                        == #[trigger] self.spec_scenic(x, y)
                &&& forall|x: int, y: int|
                    0 <= x < self.spec_width() && 0 <= y < self.spec_height()
                        ==> #[trigger] self.spec_scenic(x, y) <= r
            },
    {
        if self.width == 0 || self.height == 0 {
            return 0;
        }
        let mut best: u128 = self.scenic_score(0, 0);
        let mut y: usize = 0;
        while y < self.height
            invariant
                0 <= y <= self.spec_height(),
                0 < self.spec_width(),
                0 < self.spec_height(),
                self.wf(),
                exists|a: int, b: int|
                    0 <= a < self.spec_width() && 0 <= b < self.spec_height() && best
                        == #[trigger] self.spec_scenic(a, b),
                forall|a: int, b: int|
                    0 <= a < self.spec_width() && 0 <= b < y ==> #[trigger] self.spec_scenic(a, b)
                        <= best,
            decreases self.spec_height() - y,
        {
            let mut x: usize = 0;
            while x < self.width
                invariant
                    0 <= x <= self.spec_width(),
                    y < self.spec_height(),
                    0 < self.spec_width(),
                    self.wf(),
                    exists|a: int, b: int|
                        0 <= a < self.spec_width() && 0 <= b < self.spec_height() && best
                            == #[trigger] self.spec_scenic(a, b),
                    forall|a: int, b: int|
                        0 <= a < self.spec_width() && 0 <= b < y ==> #[trigger] self.spec_scenic(
                            a,
                            b,
                        ) <= best,
                    forall|a: int| 0 <= a < x ==> #[trigger] self.spec_scenic(a, y as int) <= best,
                decreases self.spec_width() - x,
            {
                let s: u128 = self.scenic_score(x, y);
                if s > best {
                    best = s;
                }
                x = x + 1;
            }
            y = y + 1;
        }
        best
    }
}

/// The scenic score of every perimeter cell is zero: toward its nearest
/// edge it sees no tree at all, and one zero count nullifies the product.
pub proof fn lemma_perimeter_scenic_zero(g: &Forest2, x: int, y: int)
    requires
        g.wf(),
        0 <= x < g.spec_width(),
        0 <= y < g.spec_height(),
        x == 0 || y == 0 || x == g.spec_width() - 1 || y == g.spec_height() - 1,
    ensures
        g.spec_scenic(x, y) == 0,
{
    let h0 = g.height_at(x, y);
    let l = g.look_left(y, h0, x - 1);
    let r = g.look_right(y, h0, x + 1);
    let u = g.look_up(x, h0, y - 1);
    let d = g.look_down(x, h0, y + 1);
    if x == 0 {
        assert(l == 0);
    } else if x == g.spec_width() - 1 {
        assert(r == 0);
    } else if y == 0 {
        assert(u == 0);
    } else {
        assert(d == 0);
    }
    assert(l * r * u * d == 0) by (nonlinear_arith)
        requires
            l == 0 || r == 0 || u == 0 || d == 0,
    ;
}


/// Whether every line consists of digit characters only.
pub open spec fn all_lines_digits(lines: Seq<Seq<char>>) -> bool {
    forall|i: int| 0 <= i < lines.len() ==> all_digits(#[trigger] lines[i])
}

/// Whether every line has the same length as the first.
pub open spec fn rectangular(lines: Seq<Seq<char>>) -> bool {
    forall|i: int| 0 <= i < lines.len() ==> (#[trigger] lines[i]).len() == lines[0].len()
}

impl Forest2 {
    /// Parses a grid: one line per row, one digit per cell. Fails with
    /// `InvalidDigit` on any non-digit cell, and with `NonRectangular`
    /// when the input is empty or its lines differ in length.
    pub fn parse(s: &str) -> (r: Result<Forest2, ParseError>)
        ensures
            match r {
                Ok(g) => {
                    let lines = spec_lines(s@);
                    &&& lines.len() >= 1
                    &&& all_lines_digits(lines)
                    &&& rectangular(lines)
                    &&& g.wf()
                    &&& g.spec_height() == lines.len()
                    &&& g.spec_width() == lines[0].len()
                    &&& forall|x: int, y: int|
                        0 <= x < g.spec_width() && 0 <= y < g.spec_height()
                            ==> #[trigger] g.height_at(x, y) == digit_val(lines[y][x])
                },
                Err(e) => {
                    let lines = spec_lines(s@);
                    &&& (e == ParseError::InvalidDigit <==> !all_lines_digits(lines))
                    &&& (e == ParseError::NonRectangular <==> all_lines_digits(lines) && (
                    lines.len() == 0 || !rectangular(lines)))
                    &&& (e == ParseError::InvalidDigit || e == ParseError::NonRectangular)
                },
            },
    {
        let lines: Vec<Vec<char>> = crate::text::split_lines(s);
        let ghost sl = spec_lines(s@);

        let mut i: usize = 0;
        while i < lines.len()
            invariant
                0 <= i <= lines@.len(),
                sl == spec_lines(s@),
                lines@.len() == sl.len(),
                forall|k: int| 0 <= k < lines@.len() ==> #[trigger] lines@[k]@ == sl[k],
                forall|k: int| 0 <= k < i ==> all_digits(#[trigger] sl[k]),
            decreases lines@.len() - i,
        {
            let row: &Vec<char> = &lines[i];
            let mut j: usize = 0;
            while j < row.len()
                invariant
                    0 <= j <= row@.len(),
                    0 <= i < lines@.len(),
                    sl == spec_lines(s@),
                    lines@.len() == sl.len(),
                    row@ == lines@[i as int]@,
                    forall|k: int| 0 <= k < lines@.len() ==> #[trigger] lines@[k]@ == sl[k],
                    forall|k: int| 0 <= k < j ==> is_digit(#[trigger] row@[k]),
                decreases row@.len() - j,
            {
                if crate::text::char_digit(row[j]).is_none() {
                    assert(!all_digits(sl[i as int]));
                    return Err(ParseError::InvalidDigit);
                }
                j = j + 1;
            }
            assert(all_digits(sl[i as int]));
            i = i + 1;
        }
        assert(all_lines_digits(sl));

        if lines.len() == 0 {
            return Err(ParseError::NonRectangular);
        }
        let w: usize = lines[0].len();
        let mut i: usize = 0;
        while i < lines.len()
            invariant
                0 <= i <= lines@.len(),
                sl == spec_lines(s@),
                lines@.len() == sl.len(),
                sl.len() >= 1,
                w == sl[0].len(),
                all_lines_digits(sl),
                forall|k: int| 0 <= k < lines@.len() ==> #[trigger] lines@[k]@ == sl[k],
                forall|k: int| 0 <= k < i ==> (#[trigger] sl[k]).len() == w,
            decreases lines@.len() - i,
        {
            if lines[i].len() != w {
                assert(!rectangular(sl));
                return Err(ParseError::NonRectangular);
            }
            i = i + 1;
        }
        assert(rectangular(sl));

        let mut data: Vec<u8> = Vec::new();
        let mut y: usize = 0;
        while y < lines.len()
            invariant
                0 <= y <= lines@.len(),
                lines@.len() == sl.len(),
                sl.len() >= 1,
                w == sl[0].len(),
                forall|k: int| 0 <= k < lines@.len() ==> #[trigger] lines@[k]@ == sl[k],
                forall|k: int| 0 <= k < lines@.len() ==> (#[trigger] sl[k]).len() == w,
                all_lines_digits(sl),
                data@.len() == y * w,
                forall|b: int, a: int|
                    0 <= b < y && 0 <= a < w ==> #[trigger] data@[b * w + a] == digit_val(
                        sl[b][a],
                    ),
            decreases lines@.len() - y,
        {
            let row: &Vec<char> = &lines[y];
            let mut x: usize = 0;
            while x < w
                invariant
                    0 <= x <= w,
                    0 <= y < lines@.len(),
                    lines@.len() == sl.len(),
                    w == sl[0].len(),
                    row@ == sl[y as int],
                    row@.len() == w,
                    all_lines_digits(sl),
                    data@.len() == y * w + x,
                    forall|b: int, a: int|
                        0 <= b < y && 0 <= a < w ==> #[trigger] data@[b * w + a] == digit_val(
                            sl[b][a],
                        ),
                    forall|a: int|
                        0 <= a < x ==> #[trigger] data@[y * w + a] == digit_val(sl[y as int][a]),
                decreases w - x,
            {
                let d: u32 = match crate::text::char_digit(row[x]) {
                    Some(d) => d,
                    None => {
                        proof {
                            assert(is_digit(sl[y as int][x as int]));
                        }
                        vstd::pervasive::unreached()
                    },
                };
                data.push(d as u8);
                proof {
                    assert forall|b: int, a: int|
                        0 <= b < y && 0 <= a < w implies #[trigger] data@[b * w + a] == digit_val(
                        sl[b][a],
                    ) by {
                        lemma_row_major_prefix(b, a, y as int, x as int, w as int);
                    }
                }
                x = x + 1;
            }
            proof {
                assert((y + 1) * w == y * w + w) by (nonlinear_arith);
            }
            y = y + 1;
        }
        let g = Forest2 { width: w, height: lines.len(), data };
        proof {
            assert(w * sl.len() == sl.len() * w) by (nonlinear_arith);
            assert(g.wf());
            assert(forall|x: int, y: int|
                0 <= x < g.spec_width() && 0 <= y < g.spec_height() ==> #[trigger] g.height_at(
                    x,
                    y,
                ) == digit_val(sl[y][x]));
        }
        Ok(g)
    }

    /// The cells of row `row`, left to right.
    pub fn iter_row(&self, row: usize) -> (r: Vec<Tree>)
        requires
            self.wf(),
            row < self.spec_height(),
        ensures
            r@.len() == self.spec_width(),
            forall|k: int|
                0 <= k < r@.len() ==> (#[trigger] r@[k]).x == k && r@[k].y == row && r@[k].height
                    == self.height_at(k, row as int),
    {
        let mut r: Vec<Tree> = Vec::new();
        let mut x: usize = 0;
        while x < self.width
            invariant
                0 <= x <= self.spec_width(),
                row < self.spec_height(),
                self.wf(),
                r@.len() == x,
                forall|k: int|
                    0 <= k < r@.len() ==> (#[trigger] r@[k]).x == k && r@[k].y == row
                        && r@[k].height == self.height_at(k, row as int),
            decreases self.spec_width() - x,
        {
            r.push(Tree { x, y: row, height: self.get(x, row) });
            x = x + 1;
        }
        r
    }

    /// The cells of column `col`, top to bottom.
    pub fn iter_col(&self, col: usize) -> (r: Vec<Tree>)
        requires
            self.wf(),
            col < self.spec_width(),
        ensures
            r@.len() == self.spec_height(),
            forall|k: int|
                0 <= k < r@.len() ==> (#[trigger] r@[k]).x == col && r@[k].y == k && r@[k].height
                    == self.height_at(col as int, k),
    {
        let mut r: Vec<Tree> = Vec::new();
        let mut y: usize = 0;
        while y < self.height
            invariant
                0 <= y <= self.spec_height(),
                col < self.spec_width(),
                self.wf(),
                r@.len() == y,
                forall|k: int|
                    0 <= k < r@.len() ==> (#[trigger] r@[k]).x == col && r@[k].y == k
                        && r@[k].height == self.height_at(col as int, k),
            decreases self.spec_height() - y,
        {
            r.push(Tree { x: col, y, height: self.get(col, y) });
            y = y + 1;
        }
        r
    }
}

/// Whether every tree before index `i` of `s` is strictly lower than the
/// tree at `i`.
pub open spec fn all_before_lower(s: Seq<Tree>, i: int) -> bool {
    forall|j: int| 0 <= j < i ==> (#[trigger] s[j]).height < s[i].height
}

/// The trees of `s` that strictly exceed every tree before them, in order:
/// the trees a running-maximum scan keeps.
pub open spec fn visible_of(s: Seq<Tree>) -> Seq<Tree>
    decreases s.len(),
{
    if s.len() == 0 {
        Seq::<Tree>::empty()
    } else if all_before_lower(s, s.len() - 1) {
        visible_of(s.drop_last()).push(s.last())
    } else {
        visible_of(s.drop_last())
    }
}

impl Tree {
    /// Scans `trees` with a running maximum and keeps each tree that
    /// strictly exceeds every tree before it; the first tree always stays.
    pub fn visible(trees: &Vec<Tree>) -> (r: Vec<Tree>)
        ensures
            r@ == visible_of(trees@),
    {
        let mut r: Vec<Tree> = Vec::new();
        if trees.len() == 0 {
            return r;
        }
        let first: Tree = trees[0];
        r.push(first);
        let mut max: u8 = first.height;
        proof {
            assert(trees@.take(1).drop_last() =~= Seq::<Tree>::empty());
            assert(visible_of(Seq::<Tree>::empty()) == Seq::<Tree>::empty());
            assert(all_before_lower(trees@.take(1), 0));
            assert(trees@.take(1).last() == trees@[0]);
            assert(r@ =~= visible_of(trees@.take(1)));
        }
        let mut i: usize = 1;
        while i < trees.len()
            invariant
                1 <= i <= trees@.len(),
                r@ == visible_of(trees@.take(i as int)),
                forall|j: int| 0 <= j < i ==> (#[trigger] trees@[j]).height <= max,
                exists|j: int| 0 <= j < i && (#[trigger] trees@[j]).height == max,
            decreases trees@.len() - i,
        {
            let t: Tree = trees[i];
            proof {
                assert(trees@.take(i + 1).drop_last() =~= trees@.take(i as int));
                assert(trees@.take(i + 1).last() == trees@[i as int]);
                if t.height > max {
                    assert(all_before_lower(trees@.take(i + 1), i as int));
                } else {
                    let j = choose|j: int| 0 <= j < i && (#[trigger] trees@[j]).height == max;
                    assert(trees@.take(i + 1)[j].height >= t.height);
                    assert(!all_before_lower(trees@.take(i + 1), i as int));
                }
            }
            if t.height > max {
                r.push(t);
                max = t.height;
            }
            i = i + 1;
        }
        proof {
            assert(trees@.take(i as int) =~= trees@);
        }
        r
    }
}


/// In a row-major layout of rows of length `w`, every cell of a row before
/// row `y` lies before the cell at column `x` of row `y`.
proof fn lemma_row_major_prefix(b: int, a: int, y: int, x: int, w: int)
    requires
        0 <= b < y,
        0 <= a < w,
        0 <= x,
    ensures
        0 <= b * w + a < y * w + x,
{
    assert(0 <= b * w + a < y * w + x) by (nonlinear_arith)
        requires
            0 <= b < y,
            0 <= a < w,
            0 <= x,
    ;
}


/// Whether every cell of `row` before index `y` is strictly lower than
/// the cell at `y`.
pub open spec fn row_visible_left(row: Seq<u8>, y: int) -> bool {
    forall|j: int| 0 <= j < y ==> (#[trigger] row[j]) < row[y]
}

/// An earlier draft of the grid: one vector of heights per row.
#[derive(Debug)]
pub struct Forest(Vec<Vec<u8>>);

impl Default for Forest {
    /// A forest with no rows.
    fn default() -> (r: Self)
        ensures
            r.spec_rows().len() == 0,
    {
        Forest(Vec::new())
    }
}

impl Forest {
    /// The rows of heights.
    pub closed spec fn spec_rows(&self) -> Seq<Seq<u8>> {
        Seq::new(self.0@.len() as nat, |i: int| self.0@[i]@)
    }

    /// The length of the first row. The forest must have a first row.
    pub fn width(&self) -> (r: usize)
        requires
            self.spec_rows().len() > 0,
        ensures
            r == self.spec_rows()[0].len(),
    {
        self.0[0].len()
    }

    /// The number of rows.
    pub fn height(&self) -> (r: usize)
        ensures
            r == self.spec_rows().len(),
    {
        self.0.len()
    }

    /// The cells of row `row`. In this draft a cell's `x` is its row index
    /// and its `y` is its column index.
    pub fn iter_row(&self, row: usize) -> (r: Vec<Tree>)
        requires
            row < self.spec_rows().len(),
        ensures
            r@.len() == self.spec_rows()[row as int].len(),
            forall|k: int|
                0 <= k < r@.len() ==> (#[trigger] r@[k]).x == row && r@[k].y == k && r@[k].height
                    == self.spec_rows()[row as int][k],
    {
        let line: &Vec<u8> = &self.0[row];
        let mut r: Vec<Tree> = Vec::new();
        let mut col: usize = 0;
        while col < line.len()
            invariant
                0 <= col <= line@.len(),
                row < self.spec_rows().len(),
                line@ == self.spec_rows()[row as int],
                r@.len() == col,
                forall|k: int|
                    0 <= k < r@.len() ==> (#[trigger] r@[k]).x == row && r@[k].y == k
                        && r@[k].height == line@[k],
            decreases line@.len() - col,
        {
            r.push(Tree { x: row, y: col, height: line[col] });
            col = col + 1;
        }
        r
    }

    /// The coordinates visible from the left edge, row by row: in each
    /// row, its first cell and every cell that strictly exceeds all cells
    /// before it. Every row must be nonempty. A coordinate here is the row
    /// index first, the column index second.
    pub fn left_visible(&self) -> (r: Vec<Coord>)
        requires
            forall|i: int| 0 <= i < self.spec_rows().len() ==> (#[trigger] self.spec_rows()[i]).len() > 0,
        ensures
            forall|c: Coord|
                #[trigger] r@.contains(c) <==> c.0 < self.spec_rows().len() && c.1
                    < self.spec_rows()[c.0 as int].len() && row_visible_left(
                    self.spec_rows()[c.0 as int],
                    c.1 as int,
                ),
            r@.no_duplicates(),
    {
        let mut r: Vec<Coord> = Vec::new();
        let mut x: usize = 0;
        while x < self.0.len()
            invariant
                0 <= x <= self.spec_rows().len(),
                self.spec_rows().len() == self.0@.len(),
                forall|i: int|
                    0 <= i < self.spec_rows().len() ==> (#[trigger] self.spec_rows()[i]).len() > 0,
                forall|c: Coord|
                    #[trigger] r@.contains(c) <==> c.0 < x && c.1 < self.spec_rows()[c.0 as int].len()
                        && row_visible_left(self.spec_rows()[c.0 as int], c.1 as int),
                r@.no_duplicates(),
            decreases self.0@.len() - x,
        {
            let row: &Vec<u8> = &self.0[x];
            proof {
                assert(row@ == self.spec_rows()[x as int]);
                assert(self.spec_rows()[x as int].len() > 0);
            }
            let mut max: u8 = row[0];
            let ghost prev0 = r@;
            r.push(Coord(x, 0));
            proof {
                assert(r@ =~= prev0.push(Coord(x, 0)));
                assert(r@[prev0.len() as int] == Coord(x, 0));
                assert(!prev0.contains(Coord(x, 0)));
                assert forall|a: int, b: int|
                    0 <= a < r@.len() && 0 <= b < r@.len() && a != b implies r@[a] != r@[b] by {
                    if a < prev0.len() && b < prev0.len() {
                        assert(prev0.no_duplicates());
                    } else if a < prev0.len() {
                        assert(prev0.contains(r@[a]));
                    } else if b < prev0.len() {
                        assert(prev0.contains(r@[b]));
                    }
                }
                assert forall|c: Coord| #[trigger] r@.contains(c) implies ((c.0 < x && c.1
                    < self.spec_rows()[c.0 as int].len() && row_visible_left(
                    self.spec_rows()[c.0 as int],
                    c.1 as int,
                )) || (c.0 == x && c.1 == 0)) by {
                    let idx = choose|idx: int| 0 <= idx < r@.len() && r@[idx] == c;
                    if idx < prev0.len() {
                        assert(prev0.contains(c));
                    }
                }
                assert forall|c: Coord|
                    ((c.0 < x && c.1 < self.spec_rows()[c.0 as int].len() && row_visible_left(
                        self.spec_rows()[c.0 as int],
                        c.1 as int,
                    )) || (c.0 == x && c.1 == 0)) implies #[trigger] r@.contains(c) by {
                    if c.0 < x {
                        assert(prev0.contains(c));
                        let idx = choose|idx: int| 0 <= idx < prev0.len() && prev0[idx] == c;
                        assert(r@[idx] == c);
                    } else {
                        assert(r@[prev0.len() as int] == c);
                    }
                }
            }
            let mut y: usize = 1;
            while y < row.len()
                invariant
                    1 <= y <= row@.len(),
                    0 <= x < self.spec_rows().len(),
                    self.spec_rows().len() == self.0@.len(),
                    row@ == self.spec_rows()[x as int],
                    forall|i: int|
                        0 <= i < self.spec_rows().len() ==> (#[trigger] self.spec_rows()[i]).len()
                            > 0,
                    forall|j: int| 0 <= j < y ==> (#[trigger] row@[j]) <= max,
                    exists|j: int| 0 <= j < y && (#[trigger] row@[j]) == max,
                    forall|c: Coord|
                        #[trigger] r@.contains(c) <==> (c.0 < x && c.1
                            < self.spec_rows()[c.0 as int].len() && row_visible_left(
                            self.spec_rows()[c.0 as int],
                            c.1 as int,
                        )) || (c.0 == x && c.1 < y && row_visible_left(row@, c.1 as int)),
                    r@.no_duplicates(),
                decreases row@.len() - y,
            {
                let h: u8 = row[y];
                proof {
                    if h > max {
                        assert(row_visible_left(row@, y as int));
                    } else {
                        let j = choose|j: int| 0 <= j < y && (#[trigger] row@[j]) == max;
                        assert(!row_visible_left(row@, y as int));
                    }
                }
                if h > max {
                    let ghost prev = r@;
                    r.push(Coord(x, y));
                    max = h;
                    proof {
                        assert(r@ =~= prev.push(Coord(x, y)));
                        assert(r@[prev.len() as int] == Coord(x, y));
                        assert(!prev.contains(Coord(x, y)));
                        assert forall|a: int, b: int|
                            0 <= a < r@.len() && 0 <= b < r@.len() && a != b implies r@[a]
                            != r@[b] by {
                            if a < prev.len() && b < prev.len() {
                                assert(prev.no_duplicates());
                            } else if a < prev.len() {
                                assert(prev.contains(r@[a]));
                            } else if b < prev.len() {
                                assert(prev.contains(r@[b]));
                            }
                        }
                        assert forall|c: Coord| #[trigger] r@.contains(c) implies ((c.0 < x && c.1
                            < self.spec_rows()[c.0 as int].len() && row_visible_left(
                            self.spec_rows()[c.0 as int],
                            c.1 as int,
                        )) || (c.0 == x && c.1 < y + 1 && row_visible_left(row@, c.1 as int))) by {
                            let idx = choose|idx: int| 0 <= idx < r@.len() && r@[idx] == c;
                            if idx < prev.len() {
                                assert(prev.contains(c));
                            }
                        }
                        assert forall|c: Coord|
                            ((c.0 < x && c.1 < self.spec_rows()[c.0 as int].len()
                                && row_visible_left(self.spec_rows()[c.0 as int], c.1 as int)) || (
                            c.0 == x && c.1 < y + 1 && row_visible_left(
                                row@,
                                c.1 as int,
                            ))) implies #[trigger] r@.contains(c) by {
                            if (c.0 < x || c.1 < y) {
                                assert(prev.contains(c));
                                let idx = choose|idx: int| 0 <= idx < prev.len() && prev[idx] == c;
                                assert(r@[idx] == c);
                            } else {
                                assert(c == Coord(x, y));
                                assert(r@[prev.len() as int] == c);
                            }
                        }
                    }
                }
                y = y + 1;
            }
            x = x + 1;
        }
        r
    }

    /// As `Tree::visible`: keeps each tree that strictly exceeds every
    /// tree before it. The scan must be given at least one tree.
    pub fn count_visible(&self, trees: &Vec<Tree>) -> (r: Vec<Tree>)
        requires
            trees@.len() >= 1,
        ensures
            r@ == visible_of(trees@),
    {
        Tree::visible(trees)
    }

    /// Parses one row of heights per line, one digit per cell. Fails with
    /// `InvalidDigit` on any non-digit cell, and with `NonRectangular`
    /// when the input is empty or its lines differ in length.
    pub fn parse(s: &str) -> (r: Result<Forest, ParseError>)
        ensures
            match r {
                Ok(g) => {
                    let lines = spec_lines(s@);
                    &&& lines.len() >= 1
                    &&& all_lines_digits(lines)
                    &&& rectangular(lines)
                    &&& g.spec_rows().len() == lines.len()
                    &&& forall|i: int|
                        0 <= i < lines.len() ==> (#[trigger] g.spec_rows()[i]).len()
                            == lines[i].len()
                    &&& forall|i: int, j: int|
                        0 <= i < lines.len() && 0 <= j < lines[i].len()
                            ==> #[trigger] g.spec_rows()[i][j] == digit_val(lines[i][j])
                },
                Err(e) => {
                    let lines = spec_lines(s@);
                    &&& (e == ParseError::InvalidDigit <==> !all_lines_digits(lines))
                    &&& (e == ParseError::NonRectangular <==> all_lines_digits(lines) && (
                    lines.len() == 0 || !rectangular(lines)))
                    &&& (e == ParseError::InvalidDigit || e == ParseError::NonRectangular)
                },
            },
    {
        let lines: Vec<Vec<char>> = crate::text::split_lines(s);
        let ghost sl = spec_lines(s@);
        let mut rows: Vec<Vec<u8>> = Vec::new();
        let mut i: usize = 0;
        while i < lines.len()
            invariant
                0 <= i <= lines@.len(),
                sl == spec_lines(s@),
                lines@.len() == sl.len(),
                forall|k: int| 0 <= k < lines@.len() ==> #[trigger] lines@[k]@ == sl[k],
                rows@.len() == i,
                forall|k: int| 0 <= k < i ==> all_digits(#[trigger] sl[k]),
                forall|k: int| 0 <= k < i ==> (#[trigger] rows@[k]@).len() == sl[k].len(),
                forall|k: int, j: int|
                    0 <= k < i && 0 <= j < sl[k].len() ==> #[trigger] rows@[k]@[j] == digit_val(
                        sl[k][j],
                    ),
            decreases lines@.len() - i,
        {
            let line: &Vec<char> = &lines[i];
            let mut row: Vec<u8> = Vec::new();
            let mut j: usize = 0;
            while j < line.len()
                invariant
                    0 <= j <= line@.len(),
                    0 <= i < lines@.len(),
                    sl == spec_lines(s@),
                    lines@.len() == sl.len(),
                    line@ == sl[i as int],
                    row@.len() == j,
                    forall|k: int| 0 <= k < j ==> is_digit(#[trigger] line@[k]),
                    forall|k: int| 0 <= k < j ==> #[trigger] row@[k] == digit_val(line@[k]),
                decreases line@.len() - j,
            {
                match crate::text::char_digit(line[j]) {
                    Some(d) => {
                        row.push(d as u8);
                    },
                    None => {
                        assert(!all_digits(sl[i as int]));
                        return Err(ParseError::InvalidDigit);
                    },
                }
                j = j + 1;
            }
            assert(all_digits(sl[i as int]));
            rows.push(row);
            i = i + 1;
        }
        assert(all_lines_digits(sl));

        if rows.len() == 0 {
            return Err(ParseError::NonRectangular);
        }
        let w: usize = rows[0].len();
        let mut i: usize = 1;
        while i < rows.len()
            invariant
                1 <= i <= rows@.len(),
                sl == spec_lines(s@),
                rows@.len() == sl.len(),
                sl.len() >= 1,
                all_lines_digits(sl),
                w == sl[0].len(),
                forall|k: int| 0 <= k < rows@.len() ==> (#[trigger] rows@[k]@).len() == sl[k].len(),
                forall|k: int, j: int|
                    0 <= k < rows@.len() && 0 <= j < sl[k].len() ==> #[trigger] rows@[k]@[j]
                        == digit_val(sl[k][j]),
                forall|k: int| 0 <= k < i ==> (#[trigger] sl[k]).len() == w,
            decreases rows@.len() - i,
        {
            if rows[i].len() != w {
                assert(!rectangular(sl));
                return Err(ParseError::NonRectangular);
            }
            i = i + 1;
        }
        assert(rectangular(sl));
        let g = Forest(rows);
        proof {
            assert(forall|k: int| 0 <= k < sl.len() ==> #[trigger] g.spec_rows()[k] == g.spec_rows()[k]);
        }
        Ok(g)
    }
}

/// A cursor over one row of a `Forest`, yielding its cells in order.
pub struct Row {
    row: usize,
    col: usize,
}

impl Row {
    /// A cursor at the start of row `row`.
    pub fn new(row: usize) -> (r: Self)
        ensures
            r.spec_row() == row,
            r.spec_col() == 0,
    {
        Row { row, col: 0 }
    }

    /// The row this cursor walks.
    pub closed spec fn spec_row(&self) -> int {
        self.row as int
    }

    /// The column the cursor stands on.
    pub closed spec fn spec_col(&self) -> int {
        self.col as int
    }

    /// The cell under the cursor of `forest`, advancing the cursor; `None`
    /// once the row is exhausted.
    pub fn next(&mut self, forest: &Forest) -> (r: Option<Tree>)
        requires
            old(self).spec_row() < forest.spec_rows().len(),
        ensures
            final(self).spec_row() == old(self).spec_row(),
            ({
                let cells = forest.spec_rows()[old(self).spec_row()];
                if old(self).spec_col() < cells.len() {
                    &&& r == Some(
                        Tree {
                            x: old(self).spec_row() as usize,
                            y: old(self).spec_col() as usize,
                            height: cells[old(self).spec_col()],
                        },
                    )
                    &&& final(self).spec_col() == old(self).spec_col() + 1
                } else {
                    &&& r is None
                    &&& final(self).spec_col() == old(self).spec_col()
                }
            }),
    {
        let cells: &Vec<u8> = &forest.0[self.row];
        if self.col < cells.len() {
            let t = Tree { x: self.row, y: self.col, height: cells[self.col] };
            self.col = self.col + 1;
            Some(t)
        } else {
            None
        }
    }
}

} // verus!
