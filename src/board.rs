use crate::cell::Cell;
use crate::graphics::{before, elem_at, in_grid, random_index, same_shape, Point, Size, Vec2};
use vstd::prelude::*;
use vstd::set_lib::{lemma_len_subset, lemma_set_disjoint_lens};

verus! {

/// The minefield: a grid of cells.
#[derive(Debug, Clone)]
pub struct Board {
    pub cells: Vec2<Cell>,
}

impl View for Board {
    type V = Seq<Seq<Cell>>;

    open spec fn view(&self) -> Seq<Seq<Cell>> {
        self.cells@
    }
}

/// `g` has `w` rows of `h` cells each.
pub open spec fn is_rect(g: Seq<Seq<Cell>>, w: int, h: int) -> bool {
    &&& g.len() == w
    &&& forall|i: int| 0 <= i < w ==> #[trigger] g[i].len() == h
}

/// There is a mine at `p`.
pub open spec fn is_mine_at(g: Seq<Seq<Cell>>, p: Point) -> bool {
    in_grid(g, p) && elem_at(g, p).number < 0
}

/// The positions of the mines of `g`.
pub open spec fn mine_set(g: Seq<Seq<Cell>>) -> Set<Point> {
    Set::new(|p: Point| is_mine_at(g, p))
}

/// Row of the `k`-th candidate neighbour of `p` (`k` in `0..9`, row offset `k / 3 - 1`).
pub open spec fn offset_x(p: Point, k: int) -> int {
    p.x + k / 3 - 1
}

/// Column of the `k`-th candidate neighbour of `p` (column offset `k % 3 - 1`).
pub open spec fn offset_y(p: Point, k: int) -> int {
    p.y + k % 3 - 1
}

/// The `k`-th candidate is not `p` itself and lies in the grid.
pub open spec fn offset_ok(g: Seq<Seq<Cell>>, p: Point, k: int) -> bool {
    &&& k != 4
    &&& 0 <= offset_x(p, k) < g.len()
    &&& 0 <= offset_y(p, k) < g[offset_x(p, k)].len()
    &&& offset_x(p, k) <= usize::MAX
    &&& offset_y(p, k) <= usize::MAX
}

pub open spec fn offset_point(p: Point, k: int) -> Point {
    Point { x: offset_x(p, k) as usize, y: offset_y(p, k) as usize }
}

/// The neighbours among the first `k` candidates, in candidate order.
pub open spec fn around(g: Seq<Seq<Cell>>, p: Point, k: nat) -> Seq<Point>
    decreases k,
{
    if k == 0 {
        seq![]
    } else if offset_ok(g, p, k - 1) {
        around(g, p, (k - 1) as nat).push(offset_point(p, k - 1))
    } else {
        around(g, p, (k - 1) as nat)
    }
}

/// The up to eight neighbours of `p` in `g`: row offset outer, column offset
/// inner, each from -1 to 1, leaving out `p` and what falls off the grid.
pub open spec fn neighbors(g: Seq<Seq<Cell>>, p: Point) -> Seq<Point> {
    around(g, p, 9)
}

/// How many of the positions `s` hold a mine.
pub open spec fn mine_count_in(g: Seq<Seq<Cell>>, s: Seq<Point>) -> nat
    decreases s.len(),
{
    if s.len() == 0 {
        0
    } else {
        mine_count_in(g, s.drop_last()) + if is_mine_at(g, s.last()) {
            1nat
        } else {
            0nat
        }
    }
}

/// How many neighbours of `p` hold a mine.
pub open spec fn mines_around(g: Seq<Seq<Cell>>, p: Point) -> nat {
    mine_count_in(g, neighbors(g, p))
}

/// The cell that numbering gives to the non-mine position `p`.
pub open spec fn numbered(g: Seq<Seq<Cell>>, p: Point) -> Cell {
    Cell { number: mines_around(g, p) as i8, cleared: false, flagged: false, coordinates: p }
}

/// A mine at `p`, neither cleared nor flagged.
pub open spec fn mine_cell(p: Point) -> Cell {
    Cell { number: -1i8, cleared: false, flagged: false, coordinates: p }
}

/// The untouched cell of an empty board at `p`.
pub open spec fn blank(p: Point) -> Cell {
    Cell { number: 0, cleared: false, flagged: false, coordinates: p }
}

proof fn lemma_around_len(g: Seq<Seq<Cell>>, p: Point, k: nat)
    ensures
        around(g, p, k).len() <= k,
        forall|i: int| 0 <= i < around(g, p, k).len() ==> in_grid(g, #[trigger] around(g, p, k)[i]),
    decreases k,
{
    if k > 0 {
        lemma_around_len(g, p, (k - 1) as nat);
    }
}

/// Every neighbour lies in the grid.
pub proof fn lemma_neighbors_in_grid(g: Seq<Seq<Cell>>, p: Point)
    ensures
        forall|i: int| 0 <= i < neighbors(g, p).len() ==> in_grid(g, #[trigger] neighbors(g, p)[i]),
{
    lemma_around_len(g, p, 9);
}

proof fn lemma_mine_count_le(g: Seq<Seq<Cell>>, s: Seq<Point>)
    ensures
        mine_count_in(g, s) <= s.len(),
    decreases s.len(),
{
    if s.len() > 0 {
        lemma_mine_count_le(g, s.drop_last());
    }
}

/// At most eight neighbours, hence at most eight mines around.
pub proof fn lemma_mines_around_bound(g: Seq<Seq<Cell>>, p: Point)
    ensures
        neighbors(g, p).len() <= 8,
        mines_around(g, p) <= 8,
{
    lemma_around_len(g, p, 9);
    lemma_mine_count_le(g, neighbors(g, p));
    reveal_with_fuel(around, 10);
}

proof fn lemma_around_shape(a: Seq<Seq<Cell>>, b: Seq<Seq<Cell>>, p: Point, k: nat)
    requires
        same_shape(a, b),
    ensures
        around(a, p, k) == around(b, p, k),
    decreases k,
{
    if k > 0 {
        lemma_around_shape(a, b, p, (k - 1) as nat);
        assert(offset_ok(a, p, k - 1) == offset_ok(b, p, k - 1));
    }
}

proof fn lemma_count_same_mines(a: Seq<Seq<Cell>>, b: Seq<Seq<Cell>>, s: Seq<Point>)
    requires
        forall|q: Point| is_mine_at(a, q) == is_mine_at(b, q),
    ensures
        mine_count_in(a, s) == mine_count_in(b, s),
    decreases s.len(),
{
    if s.len() > 0 {
        lemma_count_same_mines(a, b, s.drop_last());
    }
}

/// Neighbour counts depend only on the shape of the grid and where its mines are.
pub proof fn lemma_mines_around_same_mines(a: Seq<Seq<Cell>>, b: Seq<Seq<Cell>>, p: Point)
    requires
        same_shape(a, b),
        forall|q: Point| is_mine_at(a, q) == is_mine_at(b, q),
    ensures
        neighbors(a, p) == neighbors(b, p),
        mines_around(a, p) == mines_around(b, p),
{
    lemma_around_shape(a, b, p, 9);
    lemma_count_same_mines(a, b, neighbors(a, p));
}

/// A corner of an `n` by `n` grid has three neighbours, a cell on an edge
/// five, and an inner cell eight.
pub proof fn lemma_neighbor_counts(g: Seq<Seq<Cell>>, n: int, p: Point)
    requires
        2 <= n <= usize::MAX,
        is_rect(g, n, n),
        in_grid(g, p),
    ensures
        (p.x == 0 || p.x == n - 1) && (p.y == 0 || p.y == n - 1) ==> neighbors(g, p).len() == 3,
        (p.x == 0 || p.x == n - 1) != (p.y == 0 || p.y == n - 1) ==> neighbors(g, p).len() == 5,
        0 < p.x < n - 1 && 0 < p.y < n - 1 ==> neighbors(g, p).len() == 8,
{
    reveal_with_fuel(around, 10);
    assert(0 <= p.x + 1 - 1 < n ==> g[p.x as int].len() == n);
    assert(0 <= p.x - 1 < n ==> g[p.x - 1].len() == n);
    assert(0 <= p.x + 1 < n ==> g[p.x + 1].len() == n);
}

spec fn rect_set(w: int, h: int) -> Set<Point> {
    Set::new(|p: Point| (p.x as int) < w && (p.y as int) < h)
}

spec fn column_set(x: int, h: int) -> Set<Point> {
    Set::new(|p: Point| p.x as int == x && (p.y as int) < h)
}

/// The positions of a grid.
pub open spec fn grid_points(g: Seq<Seq<Cell>>) -> Set<Point> {
    Set::new(|p: Point| in_grid(g, p))
}

spec fn rows_below(g: Seq<Seq<Cell>>, k: int) -> Set<Point> {
    Set::new(|p: Point| (p.x as int) < k && in_grid(g, p))
}

proof fn lemma_rows_below_finite(g: Seq<Seq<Cell>>, k: nat)
    requires
        k <= g.len(),
        k <= usize::MAX + 1,
    ensures
        rows_below(g, k as int).finite(),
    decreases k,
{
    if k == 0 {
        assert(rows_below(g, 0) =~= Set::empty());
    } else {
        lemma_rows_below_finite(g, (k - 1) as nat);
        let h = g[k - 1].len();
        if h <= usize::MAX + 1 {
            lemma_column_len(k - 1, h);
            assert(rows_below(g, k as int) =~= rows_below(g, k - 1) + column_set(k - 1, h as int));
        } else {
            lemma_column_len(k - 1, (usize::MAX + 1) as nat);
            assert(rows_below(g, k as int) =~= rows_below(g, k - 1) + column_set(k - 1, usize::MAX + 1));
        }
    }
}

/// A grid has finitely many positions.
pub proof fn lemma_grid_finite(g: Seq<Seq<Cell>>)
    ensures
        grid_points(g).finite(),
{
    let k = if g.len() <= usize::MAX + 1 { g.len() } else { (usize::MAX + 1) as nat };
    lemma_rows_below_finite(g, k);
    assert(grid_points(g) =~= rows_below(g, k as int));
}

proof fn lemma_column_len(x: int, h: nat)
    requires
        0 <= x <= usize::MAX,
        h <= usize::MAX + 1,
    ensures
        column_set(x, h as int).finite(),
        column_set(x, h as int).len() == h,
    decreases h,
{
    if h == 0 {
        assert(column_set(x, 0) =~= Set::empty());
    } else {
        lemma_column_len(x, (h - 1) as nat);
        let q = Point { x: x as usize, y: (h - 1) as usize };
        assert(column_set(x, h as int) =~= column_set(x, h - 1).insert(q));
    }
}

/// A `w` by `h` rectangle of points holds `w * h` of them.
proof fn lemma_rect_len(w: nat, h: nat)
    requires
        w <= usize::MAX + 1,
        h <= usize::MAX + 1,
    ensures
        rect_set(w as int, h as int).finite(),
        rect_set(w as int, h as int).len() == w * h,
    decreases w,
{
    if w == 0 {
        assert(rect_set(0, h as int) =~= Set::empty());
    } else {
        lemma_rect_len((w - 1) as nat, h);
        lemma_column_len(w - 1, h);
        let a = rect_set(w - 1, h as int);
        let b = column_set(w - 1, h as int);
        assert(rect_set(w as int, h as int) =~= a + b);
        assert(a.disjoint(b));
        lemma_set_disjoint_lens(a, b);
        assert(w * h == (w - 1) * h + h) by (nonlinear_arith);
    }
}

/// A position shifted by `d - 1` (`d` in `0..3`), if that stays below `bound`.
fn shifted(v: usize, d: usize, bound: usize) -> (r: Option<usize>)
    requires
        d < 3,
    ensures
        match r {
            Some(n) => n == v + d - 1 && n < bound,
            None => !(0 <= v + d - 1 < bound),
        },
{
    if d == 0 {
        if v >= 1 && v - 1 < bound {
            Some(v - 1)
        } else {
            None
        }
    } else if d == 1 {
        if v < bound {
            Some(v)
        } else {
            None
        }
    } else {
        if v < bound && bound - v >= 2 {
            Some(v + 1)
        } else {
            None
        }
    }
}

impl Board {
    /// A `size.width` by `size.height` board of blank cells, each holding its
    /// own coordinates.
    pub fn new_empty(size: Size) -> (r: Board)
        ensures
            is_rect(r@, size.width as int, size.height as int),
            forall|p: Point| #[trigger] in_grid(r@, p) ==> elem_at(r@, p) == blank(p),
    {
        let mut cells: Vec<Vec<Cell>> = Vec::new();
        let mut x: usize = 0;
        while x < size.width
            invariant
                x <= size.width,
                cells@.len() == x,
                forall|i: int| 0 <= i < x ==> #[trigger] cells@[i]@.len() == size.height,
                forall|i: int, j: int|
                    0 <= i < x && 0 <= j < size.height ==> #[trigger] cells@[i]@[j] == blank(
                        Point { x: i as usize, y: j as usize },
                    ),
            decreases size.width - x,
        {
            let mut row: Vec<Cell> = Vec::new();
            let mut y: usize = 0;
            while y < size.height
                invariant
                    y <= size.height,
                    row@.len() == y,
                    forall|j: int| 0 <= j < y ==> #[trigger] row@[j] == blank(Point { x, y: j as usize }),
                decreases size.height - y,
            {
                row.push(Cell { number: 0, cleared: false, flagged: false, coordinates: Point { x, y } });
                y += 1;
            }
            cells.push(row);
            x += 1;
        }
        let r = Board::new_with_cells(Vec2 { data: cells });
        assert forall|p: Point| #[trigger] in_grid(r@, p) implies elem_at(r@, p) == blank(p) by {
            assert(cells@[p.x as int]@[p.y as int] == blank(Point { x: p.x, y: p.y }));
        }
        r
    }

    pub fn new_with_cells(cells: Vec2<Cell>) -> (r: Board)
        ensures
            r.cells == cells,
    {
        Board { cells }
    }

    /// The cell at `coordinates`, if it lies on the board.
    pub fn cell_at(&self, coordinates: Point) -> (r: Option<&Cell>)
        ensures
            match r {
                Some(c) => in_grid(self@, coordinates) && *c == elem_at(self@, coordinates),
                None => !in_grid(self@, coordinates),
            },
    {
        self.cells.get_element(coordinates)
    }

    /// The positions of the neighbours of `coordinates`.
    pub(crate) fn neighbor_points(&self, coordinates: Point) -> (r: Vec<Point>)
        ensures
            r@ == neighbors(self@, coordinates),
    {
        let mut r: Vec<Point> = Vec::new();
        let mut k: usize = 0;
        while k < 9
            invariant
                k <= 9,
                r@ == around(self@, coordinates, k as nat),
            decreases 9 - k,
        {
            if k != 4 {
                if let Some(nx) = shifted(coordinates.x, k / 3, self.cells.data.len()) {
                    if let Some(ny) = shifted(coordinates.y, k % 3, self.cells.data[nx].len()) {
                        r.push(Point { x: nx, y: ny });
                    }
                }
            }
            k += 1;
        }
        r
    }

    /// The neighbours of `coordinates`: for a row offset of -1, 0, 1 and,
    /// inside, a column offset of -1, 0, 1, each cell that lies on the board,
    /// leaving out the cell itself.
    pub fn get_cells_around(&self, coordinates: Point) -> (r: Vec<Cell>)
        ensures
            r@ == neighbors(self@, coordinates).map_values(|q: Point| elem_at(self@, q)),
    {
        let points = self.neighbor_points(coordinates);
        proof {
            lemma_around_len(self@, coordinates, 9);
        }
        let mut r: Vec<Cell> = Vec::new();
        let mut i: usize = 0;
        while i < points.len()
            invariant
                i <= points@.len(),
                points@ == neighbors(self@, coordinates),
                forall|j: int| 0 <= j < points@.len() ==> in_grid(self@, #[trigger] points@[j]),
                r@ == points@.take(i as int).map_values(|q: Point| elem_at(self@, q)),
            decreases points@.len() - i,
        {
            let q = points[i];
            assert(in_grid(self@, points@[i as int]));
            let c = self.cell_at(q);
            r.push(*c.unwrap());
            assert(points@.take(i + 1) =~= points@.take(i as int).push(q));
            i += 1;
        }
        assert(points@.take(i as int) =~= points@);
        r
    }

    /// How many neighbours of `coordinates` are mines.
    fn count_mines_around_cell_at(&self, coordinates: Point) -> (r: i8)
        ensures
            r == mines_around(self@, coordinates),
    {
        let points = self.neighbor_points(coordinates);
        proof {
            lemma_around_len(self@, coordinates, 9);
            reveal_with_fuel(around, 10);
        }
        let mut count: i8 = 0;
        let mut i: usize = 0;
        while i < points.len()
            invariant
                i <= points@.len() <= 9,
                points@ == neighbors(self@, coordinates),
                forall|j: int| 0 <= j < points@.len() ==> in_grid(self@, #[trigger] points@[j]),
                count == mine_count_in(self@, points@.take(i as int)),
                count <= i,
            decreases points@.len() - i,
        {
            let q = points[i];
            assert(in_grid(self@, points@[i as int]));
            assert(points@.take(i + 1).drop_last() =~= points@.take(i as int));
            let c = self.cell_at(q);
            if c.unwrap().is_mine() {
                count += 1;
            }
            i += 1;
        }
        assert(points@.take(i as int) =~= points@);
        count
    }

    /// Gives every non-mine cell the number of mines around it, with its
    /// flags reset; mines are left as they are.
    pub fn add_cell_numbers(&mut self)
        ensures
            same_shape(final(self)@, old(self)@),
            forall|p: Point| #[trigger]
                in_grid(old(self)@, p) ==> elem_at(final(self)@, p) == if is_mine_at(old(self)@, p) {
                    elem_at(old(self)@, p)
                } else {
                    numbered(old(self)@, p)
                },
    {
        let ghost g0 = self@;
        let mut x: usize = 0;
        while x < self.cells.data.len()
            invariant
                x <= self@.len(),
                g0 == old(self)@,
                same_shape(self@, g0),
                forall|q: Point| is_mine_at(self@, q) == is_mine_at(g0, q),
                forall|p: Point| #[trigger]
                    in_grid(g0, p) ==> elem_at(self@, p) == if (p.x as int) < x && !is_mine_at(g0, p) {
                        numbered(g0, p)
                    } else {
                        elem_at(g0, p)
                    },
            decreases self@.len() - x,
        {
            let mut y: usize = 0;
            while y < self.cells.data[x].len()
                invariant
                    x < self@.len(),
                    y <= self@[x as int].len(),
                    g0 == old(self)@,
                    same_shape(self@, g0),
                    forall|q: Point| is_mine_at(self@, q) == is_mine_at(g0, q),
                    forall|p: Point| #[trigger]
                        in_grid(g0, p) ==> elem_at(self@, p) == if before(p, Point { x, y })
                            && !is_mine_at(g0, p) {
                            numbered(g0, p)
                        } else {
                            elem_at(g0, p)
                        },
                decreases self@[x as int].len() - y,
            {
                let p = Point { x, y };
                if !self.cells.data[x][y].is_mine() {
                    let count = self.count_mines_around_cell_at(p);
                    proof {
                        lemma_mines_around_same_mines(self@, g0, p);
                        lemma_mines_around_bound(g0, p);
                    }
                    let ghost prev = self@;
                    self.cells.replace_at(Cell { number: count, cleared: false, flagged: false, coordinates: p }, p);
                    assert forall|q: Point| is_mine_at(self@, q) == is_mine_at(g0, q) by {
                        assert(is_mine_at(self@, q) == is_mine_at(prev, q));
                    }
                    assert(same_shape(self@, g0)) by {
                        assert forall|i: int| 0 <= i < self@.len() implies #[trigger] self@[i].len() == g0[i].len() by {
                            if i == x as int {
                            }
                        }
                    }
                }
                y += 1;
            }
            x += 1;
        }
    }

    /// A position drawn uniformly among the cells that hold no mine.
    fn random_free_cell(&self) -> (r: Point)
        requires
            exists|q: Point| in_grid(self@, q) && !is_mine_at(self@, q),
        ensures
            in_grid(self@, r),
            !is_mine_at(self@, r),
    {
        let mut free: Vec<Point> = Vec::new();
        let mut x: usize = 0;
        while x < self.cells.data.len()
            invariant
                x <= self@.len(),
                forall|i: int| 0 <= i < free@.len() ==> in_grid(self@, #[trigger] free@[i]) && !is_mine_at(self@, free@[i]),
                forall|q: Point| in_grid(self@, q) && !is_mine_at(self@, q) && (q.x as int) < x ==> free@.contains(q),
            decreases self@.len() - x,
        {
            let mut y: usize = 0;
            while y < self.cells.data[x].len()
                invariant
                    x < self@.len(),
                    y <= self@[x as int].len(),
                    forall|i: int| 0 <= i < free@.len() ==> in_grid(self@, #[trigger] free@[i]) && !is_mine_at(self@, free@[i]),
                    forall|q: Point| in_grid(self@, q) && !is_mine_at(self@, q) && before(q, Point { x, y }) ==> free@.contains(q),
                decreases self@[x as int].len() - y,
            {
                if !self.cells.data[x][y].is_mine() {
                    let ghost prev = free@;
                    free.push(Point { x, y });
                    assert forall|q: Point| in_grid(self@, q) && !is_mine_at(self@, q) && before(q, Point { x, y: (y + 1) as usize }) implies free@.contains(q) by {
                        if q == (Point { x, y }) {
                            assert(free@[prev.len() as int] == q);
                        } else {
                            assert(prev.contains(q));
                            let i = choose|i: int| 0 <= i < prev.len() && prev[i] == q;
                            assert(free@[i] == q);
                        }
                    }
                }
                y += 1;
            }
            x += 1;
        }
        proof {
            let q = choose|q: Point| in_grid(self@, q) && !is_mine_at(self@, q);
            assert(free@.contains(q));
        }
        let i = random_index(free.len());
        free[i]
    }

    /// Places `mines` mines on free cells of a board that holds none: each is
    /// put on a random cell, or, where that cell is taken already, on a cell
    /// drawn among the free ones.
    fn add_mines(&mut self, mines: i32)
        requires
            is_rect(old(self)@, old(self)@.len() as int, old(self).cells.spec_height()),
            forall|q: Point| !is_mine_at(old(self)@, q),
            0 <= mines,
            mines < old(self)@.len() * old(self).cells.spec_height(),
        ensures
            same_shape(final(self)@, old(self)@),
            mine_set(final(self)@).finite(),
            mine_set(final(self)@).len() == mines,
            forall|p: Point| #[trigger]
                in_grid(old(self)@, p) ==> elem_at(final(self)@, p) == if is_mine_at(final(self)@, p) {
                    mine_cell(p)
                } else {
                    elem_at(old(self)@, p)
                },
    {
        let ghost g0 = self@;
        let width = self.cells.get_width();
        let height = self.cells.get_height();
        assert(width > 0 && height > 0) by (nonlinear_arith)
            requires
                0 <= mines < width * height,
                width >= 0,
                height >= 0,
        ;
        let ghost mut placed: Set<Point> = Set::empty();
        let mut count: i32 = 0;
        while count < mines
            invariant
                0 <= count <= mines,
                mines < width * height,
                width == g0.len(),
                height > 0,
                is_rect(g0, width as int, height as int),
                g0 == old(self)@,
                same_shape(self@, g0),
                placed.finite(),
                placed.len() == count,
                forall|q: Point| is_mine_at(self@, q) == placed.contains(q),
                forall|p: Point| #[trigger]
                    in_grid(g0, p) ==> elem_at(self@, p) == if placed.contains(p) {
                        mine_cell(p)
                    } else {
                        elem_at(g0, p)
                    },
            decreases mines - count,
        {
            let drawn = Point::random_between(0..width, 0..height);
            assert(g0[drawn.x as int].len() == height);
            assert(self@[drawn.x as int].len() == g0[drawn.x as int].len());
            let target = if !self.cells.data[drawn.x][drawn.y].is_mine() {
                drawn
            } else {
                proof {
                    lemma_rect_len(width as nat, height as nat);
                    if forall|q: Point| in_grid(self@, q) ==> is_mine_at(self@, q) {
                        assert(rect_set(width as int, height as int).subset_of(placed));
                        lemma_len_subset(rect_set(width as int, height as int), placed);
                    }
                }
                self.random_free_cell()
            };
            let ghost prev = self@;
            self.cells.replace_at(Cell::new_mine(target), target);
            proof {
                placed = placed.insert(target);
                assert forall|q: Point| is_mine_at(self@, q) == placed.contains(q) by {
                    assert(is_mine_at(prev, q) == (placed.contains(q) && q != target));
                }
                assert forall|i: int| 0 <= i < self@.len() implies #[trigger] self@[i].len() == g0[i].len() by {
                    if i == target.x as int {
                    }
                }
            }
            count += 1;
        }
        assert(mine_set(self@) =~= placed);
    }

    /// A board of `size` with `mines` mines at random places and every other
    /// cell numbered with the mines around it.
    pub fn new(mines: i32, size: Size) -> (r: Board)
        requires
            0 <= mines < size.width * size.height,
        ensures
            is_rect(r@, size.width as int, size.height as int),
            mine_set(r@).finite(),
            mine_set(r@).len() == mines,
            forall|p: Point| #[trigger]
                in_grid(r@, p) ==> elem_at(r@, p) == if is_mine_at(r@, p) {
                    mine_cell(p)
                } else {
                    numbered(r@, p)
                },
    {
        assert(size.width > 0) by (nonlinear_arith)
            requires
                0 <= mines < size.width * size.height,
        ;
        let mut board = Board::new_empty(size);
        let ghost empty = board@;
        assert(board@[0].len() == size.height);
        board.add_mines(mines);
        let ghost mined = board@;
        board.add_cell_numbers();
        proof {
            assert forall|q: Point| is_mine_at(board@, q) == is_mine_at(mined, q) by {
                if in_grid(mined, q) {
                    lemma_mines_around_bound(mined, q);
                }
            }
            assert(mine_set(board@) =~= mine_set(mined));
            assert forall|p: Point| #[trigger] in_grid(board@, p) implies elem_at(board@, p) == if is_mine_at(board@, p) {
                mine_cell(p)
            } else {
                numbered(board@, p)
            } by {
                assert(in_grid(mined, p));
                assert(in_grid(empty, p));
                lemma_mines_around_same_mines(board@, mined, p);
            }
        }
        board
    }

    /// Number of rows.
    pub fn get_width(&self) -> (r: usize)
        ensures
            r == self@.len(),
    {
        self.cells.get_width()
    }

    /// Length of the first row, or 0.
    pub fn get_height(&self) -> (r: usize)
        ensures
            r == self.cells.spec_height(),
    {
        self.cells.get_height()
    }

    pub fn get_size(&self) -> (r: Size)
        ensures
            r.width == self@.len(),
            r.height == self.cells.spec_height(),
    {
        Size { width: self.get_width(), height: self.get_height() }
    }

    /// Visits the cells in row-major order until `f` returns `true`; returns
    /// the position where it stopped, if it did.
    pub fn for_each_cell<F: Fn(Point, &Cell) -> bool>(&self, f: F) -> (stop: Option<Point>)
        requires
            forall|p: Point| in_grid(self@, p) ==> f.requires((p, &elem_at(self@, p))),
        ensures
            match stop {
                None => forall|p: Point| #[trigger]
                    in_grid(self@, p) ==> f.ensures((p, &elem_at(self@, p)), false),
                Some(s) => {
                    &&& in_grid(self@, s)
                    &&& f.ensures((s, &elem_at(self@, s)), true)
                    &&& forall|p: Point| #[trigger]
                        in_grid(self@, p) && before(p, s) ==> f.ensures(
                            (p, &elem_at(self@, p)),
                            false,
                        )
                },
            },
    {
        self.cells.for_each_element(f)
    }

    /// Replaces the cells in row-major order by what `f` returns for them,
    /// until `f` asks to stop; returns the position where it stopped, if it did.
    pub fn for_each_cell_mut<F: Fn(Point, &Cell) -> (Cell, bool)>(&mut self, f: F) -> (stop:
        Option<Point>)
        requires
            forall|p: Point| in_grid(old(self)@, p) ==> f.requires((p, &elem_at(old(self)@, p))),
        ensures
            same_shape(final(self)@, old(self)@),
            match stop {
                None => forall|p: Point| #[trigger]
                    in_grid(old(self)@, p) ==> f.ensures(
                        (p, &elem_at(old(self)@, p)),
                        (elem_at(final(self)@, p), false),
                    ),
                Some(s) => {
                    &&& in_grid(old(self)@, s)
                    &&& f.ensures((s, &elem_at(old(self)@, s)), (elem_at(final(self)@, s), true))
                    &&& forall|p: Point| #[trigger]
                        in_grid(old(self)@, p) ==> (before(p, s) ==> f.ensures(
                            (p, &elem_at(old(self)@, p)),
                            (elem_at(final(self)@, p), false),
                        )) && (before(s, p) ==> elem_at(final(self)@, p) == elem_at(
                            old(self)@,
                            p,
                        ))
                },
            },
    {
        self.cells.for_each_element_mut(f)
    }

    /// Replaces the cell at `coordinates`, which must lie on the board.
    pub fn replace_cell(&mut self, new_cell: Cell, coordinates: Point)
        requires
            in_grid(old(self)@, coordinates),
        ensures
            final(self)@ == old(self)@.update(
                coordinates.x as int,
                old(self)@[coordinates.x as int].update(coordinates.y as int, new_cell),
            ),
    {
        self.cells.replace_at(new_cell, coordinates);
    }
}

} // verus!
