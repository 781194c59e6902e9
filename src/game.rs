use crate::board::{
    blank, grid_points, is_mine_at, is_rect, lemma_grid_finite, mine_cell, mine_set, neighbors, numbered,
    Board,
};
use crate::cell::Cell;
use crate::graphics::{addressable, before, elem_at, in_grid, same_shape, Point, Size};
use vstd::prelude::*;
use vstd::set_lib::lemma_len_subset;

verus! {

/// The three presets of mine count and board size.
#[derive(Debug, Clone, Copy, PartialEq, Eq, Structural)]
pub enum Difficulty {
    Easy,
    Medium,
    Hard,
}

/// Mines of a preset.
pub open spec fn mines_for(d: Difficulty) -> int {
    match d {
        Difficulty::Easy => 11,
        Difficulty::Medium => 41,
        Difficulty::Hard => 99,
    }
}

/// Board size of a preset.
pub open spec fn size_for(d: Difficulty) -> Size {
    match d {
        Difficulty::Easy => Size { width: 10, height: 10 },
        Difficulty::Medium => Size { width: 16, height: 16 },
        Difficulty::Hard => Size { width: 30, height: 16 },
    }
}

struct GameConfiguration {
    mines_count: i32,
    size: Size,
}

impl GameConfiguration {
    fn easy() -> (r: GameConfiguration)
        ensures
            r.mines_count == mines_for(Difficulty::Easy),
            r.size == size_for(Difficulty::Easy),
    {
        GameConfiguration { mines_count: 11, size: Size { height: 10, width: 10 } }
    }

    fn medium() -> (r: GameConfiguration)
        ensures
            r.mines_count == mines_for(Difficulty::Medium),
            r.size == size_for(Difficulty::Medium),
    {
        GameConfiguration { mines_count: 41, size: Size { height: 16, width: 16 } }
    }

    fn hard() -> (r: GameConfiguration)
        ensures
            r.mines_count == mines_for(Difficulty::Hard),
            r.size == size_for(Difficulty::Hard),
    {
        GameConfiguration { mines_count: 99, size: Size { height: 16, width: 30 } }
    }

    fn configuration_for(difficulty: Difficulty) -> (r: GameConfiguration)
        ensures
            r.mines_count == mines_for(difficulty),
            r.size == size_for(difficulty),
    {
        match difficulty {
            Difficulty::Easy => GameConfiguration::easy(),
            Difficulty::Medium => GameConfiguration::medium(),
            Difficulty::Hard => GameConfiguration::hard(),
        }
    }
}

/// The mines that are neither cleared nor flagged.
pub open spec fn hidden_mines(g: Seq<Seq<Cell>>) -> Set<Point> {
    Set::new(
        |p: Point| is_mine_at(g, p) && !elem_at(g, p).cleared && !elem_at(g, p).flagged,
    )
}

/// Some mine has been cleared.
pub open spec fn exploded(g: Seq<Seq<Cell>>) -> bool {
    exists|p: Point| #[trigger] is_mine_at(g, p) && elem_at(g, p).cleared
}

/// `c` with its `cleared` mark set.
pub open spec fn cleared_cell(c: Cell) -> Cell {
    Cell { cleared: true, ..c }
}

/// `c` with its `flagged` mark flipped.
pub open spec fn toggled_cell(c: Cell) -> Cell {
    Cell { flagged: !c.flagged, ..c }
}

/// `g` with the cell at `p` replaced by `c`.
pub open spec fn with_cell(g: Seq<Seq<Cell>>, p: Point, c: Cell) -> Seq<Seq<Cell>> {
    g.update(p.x as int, g[p.x as int].update(p.y as int, c))
}

/// The set `d` holds every neighbour of each of its zero-numbered cells.
pub open spec fn zero_closed(g: Seq<Seq<Cell>>, d: Set<Point>) -> bool {
    forall|p: Point, q: Point|
        #![trigger d.contains(p), neighbors(g, p).contains(q)]
        d.contains(p) && in_grid(g, p) && elem_at(g, p).number == 0 && neighbors(g, p).contains(q)
            ==> d.contains(q)
}

/// `r` is the region that a reveal at `s` opens: the least set that holds
/// `s` and every neighbour of each zero-numbered cell in it.
pub open spec fn is_cascade(g: Seq<Seq<Cell>>, s: Point, r: Set<Point>) -> bool {
    &&& r.subset_of(grid_points(g))
    &&& r.contains(s)
    &&& zero_closed(g, r)
    &&& forall|d: Set<Point>| #[trigger]
        zero_closed(g, d) && d.contains(s) ==> r.subset_of(d)
}

/// The region that a reveal at `s` opens.
pub open spec fn cascade(g: Seq<Seq<Cell>>, s: Point) -> Set<Point> {
    choose|r: Set<Point>| is_cascade(g, s, r)
}

/// `n` is `g` with the cells at the positions of `r` cleared.
pub open spec fn clears(g: Seq<Seq<Cell>>, n: Seq<Seq<Cell>>, r: Set<Point>) -> bool {
    &&& same_shape(n, g)
    &&& forall|p: Point| #[trigger]
        in_grid(g, p) ==> elem_at(n, p) == if r.contains(p) {
            cleared_cell(elem_at(g, p))
        } else {
            elem_at(g, p)
        }
}

/// A game: a board and the number of mines it was made with.
#[derive(Debug, Clone)]
pub struct Game {
    pub board: Board,
    pub total_mines: i32,
}

fn contains_point(v: &Vec<Point>, p: Point) -> (r: bool)
    ensures
        r == v@.contains(p),
{
    let mut i: usize = 0;
    while i < v.len()
        invariant
            i <= v@.len(),
            forall|j: int| 0 <= j < i ==> v@[j] != p,
        decreases v@.len() - i,
    {
        if v[i] == p {
            assert(v@[i as int] == p);
            return true;
        }
        i += 1;
    }
    false
}

proof fn lemma_push_keeps<T>(s: Seq<T>, x: T, q: T)
    ensures
        s.contains(q) ==> s.push(x).contains(q),
        s.push(x).contains(x),
{
    if s.contains(q) {
        let i = choose|i: int| 0 <= i < s.len() && s[i] == q;
        assert(s.push(x)[i] == q);
    }
    assert(s.push(x)[s.len() as int] == x);
}

proof fn lemma_cascade_unique(g: Seq<Seq<Cell>>, s: Point, r: Set<Point>)
    requires
        is_cascade(g, s, r),
    ensures
        cascade(g, s) == r,
{
    let c = cascade(g, s);
    assert(is_cascade(g, s, c));
    assert(c.subset_of(r));
    assert(r.subset_of(c));
    assert(c =~= r);
}

impl Game {
    /// A new game with the mine count and board size of `difficulty`.
    pub fn new(difficulty: Difficulty) -> (r: Game)
        ensures
            r.total_mines == mines_for(difficulty),
            is_rect(r.board@, size_for(difficulty).width as int, size_for(difficulty).height as int),
            mine_set(r.board@).finite(),
            mine_set(r.board@).len() == mines_for(difficulty),
            hidden_mines(r.board@) == mine_set(r.board@),
            forall|p: Point| #[trigger]
                in_grid(r.board@, p) ==> elem_at(r.board@, p) == if is_mine_at(r.board@, p) {
                    mine_cell(p)
                } else {
                    numbered(r.board@, p)
                },
    {
        let config = GameConfiguration::configuration_for(difficulty);
        let board = Board::new(config.mines_count, config.size);
        assert(hidden_mines(board@) =~= mine_set(board@));
        Game { board, total_mines: config.mines_count }
    }

    pub fn get_board(&self) -> (r: &Board)
        ensures
            r == &self.board,
    {
        &self.board
    }

    /// How many mines are neither cleared nor flagged.
    pub fn remaining_mines(&self) -> (r: u32)
        requires
            hidden_mines(self.board@).len() <= u32::MAX,
        ensures
            r == hidden_mines(self.board@).len(),
    {
        let ghost g = self.board@;
        let ghost hidden = hidden_mines(g);
        proof {
            lemma_grid_finite(g);
            lemma_len_subset(hidden, grid_points(g));
        }
        let ghost mut seen: Set<Point> = Set::empty();
        let mut count: u32 = 0;
        let mut x: usize = 0;
        while x < self.board.cells.data.len()
            invariant
                x <= g.len(),
                g == self.board@,
                hidden == hidden_mines(g),
                hidden.finite(),
                hidden.len() <= u32::MAX,
                seen.finite(),
                count == seen.len(),
                forall|q: Point| #[trigger] seen.contains(q) <==> hidden.contains(q) && (q.x as int) < x,
            decreases g.len() - x,
        {
            let mut y: usize = 0;
            while y < self.board.cells.data[x].len()
                invariant
                    x < g.len(),
                    y <= g[x as int].len(),
                    g == self.board@,
                    hidden == hidden_mines(g),
                    hidden.finite(),
                    hidden.len() <= u32::MAX,
                    seen.finite(),
                    count == seen.len(),
                    forall|q: Point| #[trigger] seen.contains(q) <==> hidden.contains(q) && before(q, Point { x, y }),
                decreases g[x as int].len() - y,
            {
                let c = &self.board.cells.data[x][y];
                if c.is_mine() && !(c.cleared || c.flagged) {
                    proof {
                        let p = Point { x, y };
                        assert(hidden.contains(p));
                        assert(seen.insert(p).subset_of(hidden));
                        lemma_len_subset(seen.insert(p), hidden);
                        seen = seen.insert(p);
                    }
                    count += 1;
                }
                y += 1;
            }
            x += 1;
        }
        assert(seen =~= hidden);
        count
    }

    /// Flips the flag of the cell at `coordinates`, unless that cell is
    /// cleared or off the board.
    pub fn toggle_flagged(&mut self, coordinates: Point)
        ensures
            final(self).total_mines == old(self).total_mines,
            final(self).board@ == if in_grid(old(self).board@, coordinates) && !elem_at(
                old(self).board@,
                coordinates,
            ).cleared {
                with_cell(
                    old(self).board@,
                    coordinates,
                    toggled_cell(elem_at(old(self).board@, coordinates)),
                )
            } else {
                old(self).board@
            },
    {
        let cell = match self.board.cell_at(coordinates) {
            Some(c) => *c,
            None => {
                return;
            },
        };
        if cell.cleared {
            return;
        }
        let new_cell = Cell {
            number: cell.number,
            cleared: cell.cleared,
            flagged: !cell.flagged,
            coordinates: cell.coordinates,
        };
        self.board.replace_cell(new_cell, coordinates);
    }

    /// Reveals the cell at `coordinates` and, through zero-numbered cells,
    /// the region around it; returns the cell as it was before. Off the
    /// board nothing changes and a blank cell is returned.
    pub fn selected_at(&mut self, coordinates: Point) -> (r: Cell)
        ensures
            final(self).total_mines == old(self).total_mines,
            in_grid(old(self).board@, coordinates) ==> r == elem_at(old(self).board@, coordinates)
                && clears(old(self).board@, final(self).board@, cascade(old(self).board@, coordinates)),
            !in_grid(old(self).board@, coordinates) ==> r == blank(Point { x: 0, y: 0 }) && final(self).board@
                == old(self).board@,
    {
        let mut selected_cell = Cell::default();
        Game::process_selected(&mut self.board, coordinates, &mut selected_cell);
        selected_cell
    }

    fn process_selected(board: &mut Board, coordinates: Point, selected_cell: &mut Cell)
        ensures
            in_grid(old(board)@, coordinates) ==> *final(selected_cell) == elem_at(old(board)@, coordinates)
                && clears(old(board)@, final(board)@, cascade(old(board)@, coordinates)),
            !in_grid(old(board)@, coordinates) ==> *final(selected_cell) == *old(selected_cell)
                && final(board)@ == old(board)@,
    {
        if let Some(cell) = board.cell_at(coordinates) {
            *selected_cell = *cell;
            Game::open_empty_cells(board, coordinates);
        }
    }

    /// Clears the cell at `start` and every cell of the region that zero-numbered
    /// cells connect to it, with its numbered border.
    fn open_empty_cells(board: &mut Board, start: Point)
        requires
            in_grid(old(board)@, start),
        ensures
            clears(old(board)@, final(board)@, cascade(old(board)@, start)),
    {
        let ghost g0 = board@;
        let ghost all = grid_points(g0);
        proof {
            lemma_grid_finite(g0);
        }
        let mut stack: Vec<Point> = Vec::new();
        let mut checked: Vec<Point> = Vec::new();
        let ghost mut vis: Set<Point> = Set::empty();
        stack.push(start);
        proof {
            lemma_push_keeps(Seq::<Point>::empty(), start, start);
        }
        while stack.len() > 0
            invariant
                g0 == old(board)@,
                all == grid_points(g0),
                all.finite(),
                in_grid(g0, start),
                vis.finite(),
                vis.subset_of(all),
                forall|q: Point| #[trigger] checked@.contains(q) <==> vis.contains(q),
                forall|i: int| 0 <= i < stack@.len() ==> in_grid(g0, #[trigger] stack@[i]),
                vis.contains(start) || stack@.contains(start),
                forall|p: Point, q: Point|
                    #![trigger vis.contains(p), neighbors(g0, p).contains(q)]
                    vis.contains(p) && elem_at(g0, p).number == 0 && neighbors(g0, p).contains(q)
                        ==> vis.contains(q) || stack@.contains(q),
                forall|d: Set<Point>| #[trigger]
                    zero_closed(g0, d) && d.contains(start) ==> vis.subset_of(d) && forall|i: int|
                        0 <= i < stack@.len() ==> d.contains(#[trigger] stack@[i]),
                same_shape(board@, g0),
                forall|p: Point| #[trigger]
                    in_grid(g0, p) ==> elem_at(board@, p) == if vis.contains(p) {
                        cleared_cell(elem_at(g0, p))
                    } else {
                        elem_at(g0, p)
                    },
            decreases all.len() - vis.len(), stack@.len(),
        {
            let ghost before_pop = stack@;
            let p = stack.pop().unwrap();
            proof {
                assert(before_pop == stack@.push(p));
                assert forall|q: Point| before_pop.contains(q) implies q == p || stack@.contains(q) by {
                    let i = choose|i: int| 0 <= i < before_pop.len() && before_pop[i] == q;
                    if i < stack@.len() {
                        assert(stack@[i] == q);
                    }
                }
                assert(in_grid(g0, before_pop[before_pop.len() - 1]));
                assert forall|d: Set<Point>| #[trigger]
                    zero_closed(g0, d) && d.contains(start) implies d.contains(p) by {
                    assert(d.contains(before_pop[before_pop.len() - 1]));
                }
            }
            if contains_point(&checked, p) {
                continue;
            }
            let ghost old_checked = checked@;
            checked.push(p);
            let ghost old_vis = vis;
            proof {
                vis = vis.insert(p);
                assert forall|q: Point| #[trigger] checked@.contains(q) <==> vis.contains(q) by {
                    lemma_push_keeps(old_checked, p, q);
                    if checked@.contains(q) && q != p {
                        let i = choose|i: int| 0 <= i < checked@.len() && checked@[i] == q;
                        assert(old_checked[i] == q);
                        assert(old_checked.contains(q));
                    }
                }
                assert(vis.subset_of(all));
                lemma_len_subset(vis, all);
            }
            let cell = *board.cell_at(p).unwrap();
            if cell.number == 0 {
                let next = board.neighbor_points(p);
                proof {
                    assert forall|q: Point| is_mine_at(board@, q) == is_mine_at(g0, q) by {
                        if in_grid(g0, q) {
                        }
                    }
                    crate::board::lemma_mines_around_same_mines(board@, g0, p);
                }
                let ghost stack_mid = stack@;
                let mut i: usize = 0;
                while i < next.len()
                    invariant
                        0 <= i <= next@.len(),
                        next@ == neighbors(g0, p),
                        elem_at(g0, p).number == 0,
                        in_grid(g0, p),
                        vis.contains(p),
                        g0 == old(board)@,
                        all == grid_points(g0),
                        forall|q: Point| #[trigger] checked@.contains(q) <==> vis.contains(q),
                        forall|q: Point| stack_mid.contains(q) ==> #[trigger] stack@.contains(q),
                        forall|j: int| 0 <= j < i ==> vis.contains(#[trigger] next@[j]) || stack@.contains(next@[j]),
                        forall|j: int| 0 <= j < stack@.len() ==> in_grid(g0, #[trigger] stack@[j]),
                        forall|d: Set<Point>| #[trigger]
                            zero_closed(g0, d) && d.contains(start) ==> d.contains(p) && forall|j: int|
                                0 <= j < stack@.len() ==> d.contains(#[trigger] stack@[j]),
                    decreases next@.len() - i,
                {
                    let q = next[i];
                    proof {
                        crate::board::lemma_neighbors_in_grid(g0, p);
                    }
                    if !contains_point(&checked, q) {
                        let ghost s_before = stack@;
                        stack.push(q);
                        proof {
                            assert forall|r: Point| stack_mid.contains(r) implies #[trigger] stack@.contains(r) by {
                                lemma_push_keeps(s_before, q, r);
                            }
                            assert forall|j: int| 0 <= j <= i implies vis.contains(#[trigger] next@[j]) || stack@.contains(next@[j]) by {
                                lemma_push_keeps(s_before, q, next@[j]);
                            }
                            assert forall|d: Set<Point>| #[trigger]
                                zero_closed(g0, d) && d.contains(start) implies d.contains(p) && forall|j: int|
                                    0 <= j < stack@.len() ==> d.contains(#[trigger] stack@[j]) by {
                                assert(neighbors(g0, p).contains(q)) by {
                                    assert(next@[i as int] == q);
                                }
                                assert(d.contains(p));
                                assert(d.contains(q));
                                assert forall|j: int| 0 <= j < stack@.len() implies d.contains(#[trigger] stack@[j]) by {
                                    if j < s_before.len() {
                                        assert(stack@[j] == s_before[j]);
                                    }
                                }
                            }
                        }
                    }
                    i += 1;
                }
                proof {
                    assert forall|q: Point| neighbors(g0, p).contains(q) implies vis.contains(q) || stack@.contains(q) by {
                        let j = choose|j: int| 0 <= j < next@.len() && next@[j] == q;
                    }
                }
            }
            let ghost prev = board@;
            board.replace_cell(
                Cell { number: cell.number, cleared: true, flagged: cell.flagged, coordinates: cell.coordinates },
                p,
            );
            proof {
                assert(same_shape(board@, g0)) by {
                    assert forall|i: int| 0 <= i < board@.len() implies #[trigger] board@[i].len() == g0[i].len() by {
                        if i == p.x as int {
                        }
                    }
                }
                assert forall|a: Point, b: Point|
                    #![trigger vis.contains(a), neighbors(g0, a).contains(b)]
                    vis.contains(a) && elem_at(g0, a).number == 0 && neighbors(g0, a).contains(b)
                        implies vis.contains(b) || stack@.contains(b) by {
                    if a != p {
                        assert(old_vis.contains(a));
                        if !old_vis.contains(b) && b != p {
                            assert(before_pop.contains(b));
                        }
                    }
                }
            }
        }
        proof {
            assert(zero_closed(g0, vis));
            assert(is_cascade(g0, start, vis));
            lemma_cascade_unique(g0, start, vis);
        }
    }

    /// Whether some mine has been cleared.
    pub fn is_game_over(&self) -> (r: bool)
        ensures
            r == exploded(self.board@),
    {
        let ghost g = self.board@;
        let mut x: usize = 0;
        while x < self.board.cells.data.len()
            invariant
                x <= g.len(),
                g == self.board@,
                forall|q: Point| #[trigger] is_mine_at(g, q) && (q.x as int) < x ==> !elem_at(g, q).cleared,
            decreases g.len() - x,
        {
            let mut y: usize = 0;
            while y < self.board.cells.data[x].len()
                invariant
                    x < g.len(),
                    y <= g[x as int].len(),
                    g == self.board@,
                    forall|q: Point| #[trigger] is_mine_at(g, q) && before(q, Point { x, y }) ==> !elem_at(g, q).cleared,
                decreases g[x as int].len() - y,
            {
                let c = &self.board.cells.data[x][y];
                if c.is_mine() && c.cleared {
                    assert(is_mine_at(g, Point { x, y }));
                    return true;
                }
                y += 1;
            }
            x += 1;
        }
        false
    }

    /// Whether every mine is flagged or still covered and no mine has been cleared.
    pub fn is_win(&self) -> (r: bool)
        requires
            hidden_mines(self.board@).len() <= u32::MAX,
        ensures
            r == (hidden_mines(self.board@).len() == 0 && !exploded(self.board@)),
    {
        if self.remaining_mines() > 0 {
            return false;
        }
        !self.is_game_over()
    }

    fn clear_cells(&mut self, mines_too: bool)
        ensures
            final(self).total_mines == old(self).total_mines,
            clears(
                old(self).board@,
                final(self).board@,
                Set::new(|p: Point| in_grid(old(self).board@, p) && (mines_too || !is_mine_at(old(self).board@, p))),
            ),
    {
        let ghost g0 = self.board@;
        let ghost r = Set::new(|p: Point| in_grid(g0, p) && (mines_too || !is_mine_at(g0, p)));
        let mut x: usize = 0;
        while x < self.board.cells.data.len()
            invariant
                x <= g0.len(),
                g0 == old(self).board@,
                self.total_mines == old(self).total_mines,
                r == Set::new(|p: Point| in_grid(g0, p) && (mines_too || !is_mine_at(g0, p))),
                same_shape(self.board@, g0),
                forall|p: Point| #[trigger]
                    in_grid(g0, p) ==> elem_at(self.board@, p) == if r.contains(p) && (p.x as int) < x {
                        cleared_cell(elem_at(g0, p))
                    } else {
                        elem_at(g0, p)
                    },
            decreases g0.len() - x,
        {
            let mut y: usize = 0;
            while y < self.board.cells.data[x].len()
                invariant
                    x < g0.len(),
                    y <= g0[x as int].len(),
                    g0 == old(self).board@,
                    self.total_mines == old(self).total_mines,
                    r == Set::new(|p: Point| in_grid(g0, p) && (mines_too || !is_mine_at(g0, p))),
                    same_shape(self.board@, g0),
                    forall|p: Point| #[trigger]
                        in_grid(g0, p) ==> elem_at(self.board@, p) == if r.contains(p) && before(p, Point { x, y }) {
                            cleared_cell(elem_at(g0, p))
                        } else {
                            elem_at(g0, p)
                        },
                decreases g0[x as int].len() - y,
            {
                assert(self.board@[x as int].len() == g0[x as int].len());
                let c = self.board.cells.data[x][y];
                assert(in_grid(g0, Point { x, y }));
                if !c.cleared && (mines_too || !c.is_mine()) {
                    let ghost prev = self.board@;
                    self.board.cells.data[x][y] = Cell {
                        number: c.number,
                        cleared: true,
                        flagged: c.flagged,
                        coordinates: c.coordinates,
                    };
                    proof {
                        assert(self.board@ =~= prev.update(x as int, prev[x as int].update(y as int, cleared_cell(c))));
                        assert forall|i: int| 0 <= i < self.board@.len() implies #[trigger] self.board@[i].len() == g0[i].len() by {
                            if i == x as int {
                            }
                        }
                    }
                }
                y += 1;
            }
            x += 1;
        }
    }

    /// Clears every cell that holds no mine.
    pub fn clear_all_non_mines(&mut self)
        ensures
            final(self).total_mines == old(self).total_mines,
            clears(
                old(self).board@,
                final(self).board@,
                Set::new(|p: Point| in_grid(old(self).board@, p) && !is_mine_at(old(self).board@, p)),
            ),
    {
        self.clear_cells(false);
        assert(Set::new(|p: Point| in_grid(old(self).board@, p) && (false || !is_mine_at(old(self).board@, p)))
            =~= Set::new(|p: Point| in_grid(old(self).board@, p) && !is_mine_at(old(self).board@, p)));
    }

    /// Clears every cell, mines included.
    pub fn clear_all(&mut self)
        ensures
            final(self).total_mines == old(self).total_mines,
            clears(old(self).board@, final(self).board@, grid_points(old(self).board@)),
    {
        self.clear_cells(true);
        assert(Set::new(|p: Point| in_grid(old(self).board@, p) && (true || !is_mine_at(old(self).board@, p)))
            =~= grid_points(old(self).board@));
    }
}

/// Revealing at a mine opens that mine alone.
pub proof fn lemma_cascade_at_mine(g: Seq<Seq<Cell>>, p: Point)
    requires
        is_mine_at(g, p),
    ensures
        cascade(g, p) == set![p],
{
    let r = set![p];
    assert(zero_closed(g, r));
    lemma_cascade_unique(g, p, r);
}

/// Flagging a covered, unflagged mine lowers the count of remaining mines by
/// one; flipping the flag of a covered cell without a mine leaves it as it is.
pub proof fn lemma_remaining_after_toggle(g: Seq<Seq<Cell>>, p: Point)
    requires
        in_grid(g, p),
        !elem_at(g, p).cleared,
    ensures
        is_mine_at(g, p) && !elem_at(g, p).flagged ==> hidden_mines(
            with_cell(g, p, toggled_cell(elem_at(g, p))),
        ).len() == hidden_mines(g).len() - 1,
        !is_mine_at(g, p) ==> hidden_mines(with_cell(g, p, toggled_cell(elem_at(g, p))))
            == hidden_mines(g),
{
    let n = with_cell(g, p, toggled_cell(elem_at(g, p)));
    lemma_hidden_finite(g);
    assert forall|q: Point| in_grid(g, q) && q != p implies elem_at(n, q) == elem_at(g, q) by {}
    if is_mine_at(g, p) && !elem_at(g, p).flagged {
        assert(hidden_mines(n) =~= hidden_mines(g).remove(p));
    }
    if !is_mine_at(g, p) {
        assert(hidden_mines(n) =~= hidden_mines(g));
    }
}

/// Revealing a covered, unflagged mine lowers the count of remaining mines by one.
pub proof fn lemma_remaining_after_reveal_of_mine(g: Seq<Seq<Cell>>, n: Seq<Seq<Cell>>, p: Point)
    requires
        is_mine_at(g, p),
        !elem_at(g, p).cleared,
        !elem_at(g, p).flagged,
        clears(g, n, cascade(g, p)),
    ensures
        hidden_mines(n).len() == hidden_mines(g).len() - 1,
{
    lemma_cascade_at_mine(g, p);
    lemma_hidden_finite(g);
    assert forall|q: Point| in_grid(g, q) && q != p implies elem_at(n, q) == elem_at(g, q) by {}
    assert(hidden_mines(n) =~= hidden_mines(g).remove(p));
}

proof fn lemma_hidden_finite(g: Seq<Seq<Cell>>)
    ensures
        hidden_mines(g).finite(),
{
    lemma_grid_finite(g);
    lemma_len_subset(hidden_mines(g), grid_points(g));
}

/// Flipping the flag of a covered cell twice gives back the board it started from.
pub proof fn lemma_toggle_twice(g: Seq<Seq<Cell>>, p: Point)
    requires
        in_grid(g, p),
        !elem_at(g, p).cleared,
    ensures
        !elem_at(with_cell(g, p, toggled_cell(elem_at(g, p))), p).cleared,
        with_cell(
            with_cell(g, p, toggled_cell(elem_at(g, p))),
            p,
            toggled_cell(elem_at(with_cell(g, p, toggled_cell(elem_at(g, p))), p)),
        ) == g,
{
    let n = with_cell(g, p, toggled_cell(elem_at(g, p)));
    let m = with_cell(n, p, toggled_cell(elem_at(n, p)));
    assert(m[p.x as int] =~= g[p.x as int]);
    assert(m =~= g);
}

/// Clearing every cell a second time changes nothing.
pub proof fn lemma_clear_all_twice(g: Seq<Seq<Cell>>, n1: Seq<Seq<Cell>>, n2: Seq<Seq<Cell>>)
    requires
        addressable(g),
        clears(g, n1, grid_points(g)),
        clears(n1, n2, grid_points(n1)),
    ensures
        n2 == n1,
{
    assert forall|i: int| 0 <= i < n1.len() implies n2[i] =~= n1[i] by {
        assert forall|j: int| 0 <= j < n1[i].len() implies n2[i][j] == n1[i][j] by {
            let q = Point { x: i as usize, y: j as usize };
            assert(in_grid(g, q));
            assert(in_grid(n1, q));
        }
    }
    assert(n2 =~= n1);
}

} // verus!
