use std::ops::Range;
use vstd::prelude::*;

verus! {

/// A position in a grid: `x` selects the row, `y` the element in that row.
#[derive(Debug, Clone, Copy, PartialEq, Eq, Structural)]
pub struct Point {
    pub x: usize,
    pub y: usize,
}

/// The extent of a grid.
#[derive(Debug, Clone, Copy, PartialEq, Eq, Structural)]
pub struct Size {
    pub width: usize,
    pub height: usize,
}

impl Default for Point {
    fn default() -> (r: Point)
        ensures
            r == (Point { x: 0, y: 0 }),
    {
        Point { x: 0, y: 0 }
    }
}

impl Default for Size {
    fn default() -> (r: Size)
        ensures
            r == (Size { width: 0, height: 0 }),
    {
        Size { width: 0, height: 0 }
    }
}

/// Whether `p` addresses an element of `g`.
pub open spec fn in_grid<T>(g: Seq<Seq<T>>, p: Point) -> bool {
    (p.x as int) < g.len() && (p.y as int) < g[p.x as int].len()
}

/// The element of `g` at `p`.
pub open spec fn elem_at<T>(g: Seq<Seq<T>>, p: Point) -> T {
    g[p.x as int][p.y as int]
}

/// `a` and `b` have the same number of rows, and rows of equal lengths.
pub open spec fn same_shape<T, U>(a: Seq<Seq<T>>, b: Seq<Seq<U>>) -> bool {
    &&& a.len() == b.len()
    &&& forall|i: int| 0 <= i < a.len() ==> #[trigger] a[i].len() == b[i].len()
}

/// Every row and column index of `g` fits in a `usize`, as for any grid held in memory.
pub open spec fn addressable<T>(g: Seq<Seq<T>>) -> bool {
    &&& g.len() <= usize::MAX
    &&& forall|i: int| 0 <= i < g.len() ==> #[trigger] g[i].len() <= usize::MAX
}

/// `p` comes strictly before `s` in row-major order.
pub open spec fn before(p: Point, s: Point) -> bool {
    p.x < s.x || (p.x == s.x && p.y < s.y)
}

/// Relies on rand's `Rng::gen_range` over the thread-local generator: a value
/// drawn from `start..end`, which it never leaves (it panics only on an empty range).
#[verifier::external_body]
fn random_in(start: usize, end: usize) -> (r: usize)
    requires
        start < end,
    ensures
        start <= r < end,
{
    rand::Rng::gen_range(&mut rand::thread_rng(), start..end)
}

/// A value drawn uniformly from `0..n`.
pub(crate) fn random_index(n: usize) -> (r: usize)
    requires
        n > 0,
    ensures
        r < n,
{
    random_in(0, n)
}

impl Point {
    /// A point drawn at random, each coordinate from its own range.
    pub fn random_between(range_x: Range<usize>, range_y: Range<usize>) -> (r: Point)
        requires
            range_x.start < range_x.end,
            range_y.start < range_y.end,
        ensures
            range_x.start <= r.x < range_x.end,
            range_y.start <= r.y < range_y.end,
    {
        Point { x: random_in(range_x.start, range_x.end), y: random_in(range_y.start, range_y.end) }
    }

    pub fn zero() -> (r: Point)
        ensures
            r == (Point { x: 0, y: 0 }),
    {
        Point { x: 0, y: 0 }
    }
}

/// A two-dimensional array, stored as a vector of rows.
#[derive(Debug, Clone)]
pub struct Vec2<T> {
    pub data: Vec<Vec<T>>,
}

impl<T> View for Vec2<T> {
    type V = Seq<Seq<T>>;

    open spec fn view(&self) -> Seq<Seq<T>> {
        Seq::new(self.data@.len(), |i: int| self.data@[i]@)
    }
}

impl<T: Copy> Vec2<T> {
    pub fn new(data: Vec<Vec<T>>) -> (r: Vec2<T>)
        ensures
            r.data == data,
    {
        Vec2 { data }
    }

    /// Visits the elements in row-major order until `f` asks to stop by
    /// returning `true`; returns the point where it stopped, if it did.
    pub fn for_each_element<F: Fn(Point, &T) -> bool>(&self, f: F) -> (stop: Option<Point>)
        requires
            forall|p: Point| in_grid(self@, p) ==> f.requires((p, &elem_at(self@, p))),
        ensures
            match stop {
                None => forall|p: Point| #[trigger]
                    in_grid(self@, p) ==> f.ensures((p, &elem_at(self@, p)), false),
                Some(s) => {
                    &&& in_grid(self@, s)
                    &&& f.ensures((s, &elem_at(self@, s)), true)
                    &&& forall|p: Point| #[trigger]
                        in_grid(self@, p) && before(p, s) ==> f.ensures(
                            (p, &elem_at(self@, p)),
                            false,
                        )
                },
            },
    {
        let mut x: usize = 0;
        while x < self.data.len()
            invariant
                x <= self.data@.len(),
                forall|p: Point| in_grid(self@, p) ==> f.requires((p, &elem_at(self@, p))),
                forall|p: Point| #[trigger]
                    in_grid(self@, p) && (p.x as int) < x ==> f.ensures(
                        (p, &elem_at(self@, p)),
                        false,
                    ),
            decreases self.data@.len() - x,
        {
            let row = &self.data[x];
            let mut y: usize = 0;
            while y < row.len()
                invariant
                    x < self.data@.len(),
                    row@ == self@[x as int],
                    y <= row@.len(),
                    forall|p: Point| in_grid(self@, p) ==> f.requires((p, &elem_at(self@, p))),
                    forall|p: Point| #[trigger]
                        in_grid(self@, p) && before(p, Point { x, y }) ==> f.ensures(
                            (p, &elem_at(self@, p)),
                            false,
                        ),
                decreases row@.len() - y,
            {
                let p = Point { x, y };
                assert(in_grid(self@, p));
                let stop = f(p, &row[y]);
                if stop {
                    return Some(p);
                }
                y += 1;
            }
            x += 1;
        }
        None
    }

    /// Replaces each element, in row-major order, by the first part of what
    /// `f` returns for it, until the second part asks to stop; returns the
    /// point where it stopped, if it did. Elements after that point keep their value.
    pub fn for_each_element_mut<F: Fn(Point, &T) -> (T, bool)>(&mut self, f: F) -> (stop: Option<
        Point,
    >)
        requires
            forall|p: Point| in_grid(old(self)@, p) ==> f.requires((p, &elem_at(old(self)@, p))),
        ensures
            same_shape(final(self)@, old(self)@),
            match stop {
                None => forall|p: Point| #[trigger]
                    in_grid(old(self)@, p) ==> f.ensures(
                        (p, &elem_at(old(self)@, p)),
                        (elem_at(final(self)@, p), false),
                    ),
                Some(s) => {
                    &&& in_grid(old(self)@, s)
                    &&& f.ensures((s, &elem_at(old(self)@, s)), (elem_at(final(self)@, s), true))
                    &&& forall|p: Point| #[trigger]
                        in_grid(old(self)@, p) ==> (before(p, s) ==> f.ensures(
                            (p, &elem_at(old(self)@, p)),
                            (elem_at(final(self)@, p), false),
                        )) && (before(s, p) ==> elem_at(final(self)@, p) == elem_at(
                            old(self)@,
                            p,
                        ))
                },
            },
    {
        let ghost g0 = self@;
        let mut x: usize = 0;
        while x < self.data.len()
            invariant
                x <= self.data@.len(),
                same_shape(self@, g0),
                g0 == old(self)@,
                forall|p: Point| in_grid(g0, p) ==> f.requires((p, &elem_at(g0, p))),
                forall|p: Point| #[trigger]
                    in_grid(g0, p) ==> ((p.x as int) < x ==> f.ensures(
                        (p, &elem_at(g0, p)),
                        (elem_at(self@, p), false),
                    )) && ((p.x as int) >= x ==> elem_at(self@, p) == elem_at(g0, p)),
            decreases self.data@.len() - x,
        {
            let mut y: usize = 0;
            while y < self.data[x].len()
                invariant
                    x < self.data@.len(),
                    y <= self@[x as int].len(),
                    same_shape(self@, g0),
                    g0 == old(self)@,
                    forall|p: Point| in_grid(g0, p) ==> f.requires((p, &elem_at(g0, p))),
                    forall|p: Point| #[trigger]
                        in_grid(g0, p) ==> (before(p, Point { x, y }) ==> f.ensures(
                            (p, &elem_at(g0, p)),
                            (elem_at(self@, p), false),
                        )) && (!before(p, Point { x, y }) ==> elem_at(self@, p) == elem_at(
                            g0,
                            p,
                        )),
                decreases self@[x as int].len() - y,
            {
                let p = Point { x, y };
                assert(in_grid(g0, p));
                let (v, stop) = f(p, &self.data[x][y]);
                let ghost prev = self@;
                self.data[x][y] = v;
                assert(self@ =~= prev.update(x as int, prev[x as int].update(y as int, v)));
                assert forall|i: int| 0 <= i < self@.len() implies #[trigger] self@[i].len()
                    == g0[i].len() by {
                    if i == x as int {
                    }
                }
                if stop {
                    return Some(p);
                }
                y += 1;
            }
            x += 1;
        }
        None
    }

    /// Number of rows.
    pub fn get_width(&self) -> (r: usize)
        ensures
            r == self@.len(),
    {
        self.data.len()
    }

    /// The height that `get_height` returns.
    pub open spec fn spec_height(&self) -> int {
        if self@.len() == 0 {
            0
        } else {
            self@[0].len() as int
        }
    }

    /// Length of the first row, or 0 when there is none.
    pub fn get_height(&self) -> (r: usize)
        ensures
            r == self.spec_height(),
    {
        if self.data.len() == 0 {
            0
        } else {
            self.data[0].len()
        }
    }

    /// The element at `coordinates`, if it lies in the grid.
    pub fn get_element(&self, coordinates: Point) -> (r: Option<&T>)
        ensures
            match r {
                Some(e) => in_grid(self@, coordinates) && *e == elem_at(self@, coordinates),
                None => !in_grid(self@, coordinates),
            },
    {
        if coordinates.x < self.data.len() && coordinates.y < self.data[coordinates.x].len() {
            Some(&self.data[coordinates.x][coordinates.y])
        } else {
            None
        }
    }

    /// Replaces the element at `coordinates`, which must lie in the grid.
    pub fn replace_at(&mut self, element: T, coordinates: Point)
        requires
            in_grid(old(self)@, coordinates),
        ensures
            final(self)@ == old(self)@.update(
                coordinates.x as int,
                old(self)@[coordinates.x as int].update(coordinates.y as int, element),
            ),
    {
        self.data[coordinates.x][coordinates.y] = element;
        assert(self@ =~= old(self)@.update(
            coordinates.x as int,
            old(self)@[coordinates.x as int].update(coordinates.y as int, element),
        ));
    }
}

} // verus!
