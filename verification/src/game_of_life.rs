//! Conway's Game of Life with the classic rules fixed: a live cell survives
//! with two or three live Moore neighbors, a dead cell is born with exactly
//! three. A double-buffered grid keeps the update synchronous, and running
//! population, birth and death tallies are maintained.

use vstd::prelude::*;

use crate::canvas::{at_wrapped, lemma_moore_count_ext, moore_count, Canvas, Color, Colorize};
use crate::counting::{
    count_in_row, count_upto, lemma_count_in_row_bounds, lemma_count_upto_bounds,
    lemma_count_upto_ext, lemma_count_upto_zero,
};

verus! {

/// A double-buffered cell: `curr` is the visible state, `succ` the state
/// scheduled for the next commit.
#[derive(Clone, Copy)]
pub struct Cell {
    pub curr: bool,
    pub succ: bool,
}

impl Colorize for Cell {
    open spec fn color_spec(&self) -> Color {
        if self.curr {
            (25, 25, 25)
        } else {
            (0, 0, 0)
        }
    }

    fn color(&self) -> (c: Color) {
        if self.curr {
            (25, 25, 25)
        } else {
            (0, 0, 0)
        }
    }
}

impl Cell {
    /// A fresh cell is dead and scheduled to stay dead.
    pub fn new() -> (c: Cell)
        ensures
            !c.curr,
            !c.succ,
    {
        Cell { curr: false, succ: false }
    }

    /// Schedule the cell to be alive after the next commit.
    pub fn birth(&mut self)
        ensures
            final(self).curr == old(self).curr,
            final(self).succ,
    {
        self.succ = true;
    }

    /// Schedule the cell to be dead after the next commit.
    pub fn kill(&mut self)
        ensures
            final(self).curr == old(self).curr,
            !final(self).succ,
    {
        self.succ = false;
    }

    /// Commit the scheduled state.
    pub fn update(&mut self)
        ensures
            final(self).curr == old(self).succ,
            final(self).succ == old(self).succ,
    {
        if self.succ {
            if !self.curr {
                self.curr = true;
            }
        } else {
            if self.curr {
                self.curr = false;
            }
        }
    }

    /// The visible state of the cell.
    pub fn is_alive(&self) -> (b: bool)
        ensures
            b == self.curr,
    {
        self.curr
    }
}

/// How one cell steps under the classic rules: survival on two or three
/// live neighbors, birth on exactly three.
pub open spec fn step_cell(alive: bool, n: int) -> bool {
    if alive {
        n == 2 || n == 3
    } else {
        n == 3
    }
}

/// One synchronous step of a whole `h x w` flag grid under the classic
/// rules.
pub open spec fn life_step(g: Seq<Seq<bool>>, h: int, w: int) -> Seq<Seq<bool>> {
    Seq::new(
        h as nat,
        |i: int| Seq::new(w as nat, |j: int| step_cell(g[i][j], moore_count(g, h, w, i, j))),
    )
}

/// The still-life law for a 2x2 block: on a grid whose only live cells are
/// a 2x2 block away from the edges, every block cell has exactly three live
/// neighbors and every dead cell at most two, so one synchronous step
/// leaves the whole grid unchanged.
#[verifier::rlimit(100)]
pub proof fn lemma_block_still_life(g: Seq<Seq<bool>>, h: int, w: int, i: int, j: int)
    requires
        g.len() == h,
        forall|r: int| 0 <= r < h ==> (#[trigger] g[r]).len() == w,
        4 <= h,
        4 <= w,
        1 <= i,
        i + 1 <= h - 2,
        1 <= j,
        j + 1 <= w - 2,
        forall|r: int, c: int|
            0 <= r < h && 0 <= c < w ==> (#[trigger] g[r][c] == (i <= r <= i + 1 && j <= c <= j
                + 1)),
    ensures
        life_step(g, h, w) == g,
{
    assert forall|r: int, c: int| 0 <= r < h && 0 <= c < w implies #[trigger] life_step(
        g,
        h,
        w,
    )[r][c] == g[r][c] by {
        crate::canvas::lemma_wrap_step(r, -1, h);
        crate::canvas::lemma_wrap_step(r, 0, h);
        crate::canvas::lemma_wrap_step(r, 1, h);
        crate::canvas::lemma_wrap_step(c, -1, w);
        crate::canvas::lemma_wrap_step(c, 0, w);
        crate::canvas::lemma_wrap_step(c, 1, w);
        assert(step_cell(g[r][c], moore_count(g, h, w, r, c)) == g[r][c]);
    }
    assert(life_step(g, h, w) =~~= g);
}

/// Whether position `(i, j)` occurs in the list of cells.
pub open spec fn listed(cells: Seq<(usize, usize)>, i: int, j: int) -> bool {
    exists|t: int| 0 <= t < cells.len() && (#[trigger] cells[t]).0 == i && cells[t].1 == j
}

/// Appending one cell to a list adds exactly that position.
proof fn lemma_listed_push(cells: Seq<(usize, usize)>, a: int, b: int)
    requires
        cells.len() > 0,
    ensures
        listed(cells, a, b) == (listed(cells.drop_last(), a, b) || (cells.last().0 == a
            && cells.last().1 == b)),
{
    if listed(cells, a, b) {
        let t = choose|t: int|
            0 <= t < cells.len() && (#[trigger] cells[t]).0 == a && cells[t].1 == b;
        if t < cells.len() - 1 {
            assert(cells.drop_last()[t] == cells[t]);
        }
    }
    if listed(cells.drop_last(), a, b) {
        let t = choose|t: int|
            0 <= t < cells.drop_last().len() && (#[trigger] cells.drop_last()[t]).0 == a
                && cells.drop_last()[t].1 == b;
        assert(cells[t] == cells.drop_last()[t]);
    }
    if cells.last().0 == a && cells.last().1 == b {
        assert(cells[cells.len() - 1].0 == a && cells[cells.len() - 1].1 == b);
    }
}

/// A Game of Life colony: the cell grid with running population, birth and
/// death tallies.
pub struct Colony {
    field: Canvas<Cell>,
    hgt: usize,
    wth: usize,
    cnt: usize,
    born: usize,
    dead: usize,
}

impl Colony {
    /// Number of rows.
    pub closed spec fn height(self) -> int {
        self.hgt as int
    }

    /// Number of columns.
    pub closed spec fn width(self) -> int {
        self.wth as int
    }

    /// The raw cell grid.
    pub closed spec fn grid(self) -> Seq<Seq<Cell>> {
        self.field.cells()
    }

    /// The visible state of the grid: one flag per cell.
    pub open spec fn curr_grid(self) -> Seq<Seq<bool>> {
        Seq::new(
            self.height() as nat,
            |i: int| Seq::new(self.width() as nat, |j: int| self.grid()[i][j].curr),
        )
    }

    /// Number of live cells on the grid.
    pub open spec fn population(self) -> int {
        count_upto(|i: int, j: int| self.curr_grid()[i][j], self.height(), self.width())
    }

    /// The running population tally.
    pub closed spec fn count_spec(self) -> int {
        self.cnt as int
    }

    /// Cells that came alive at the latest step.
    pub closed spec fn born_count(self) -> int {
        self.born as int
    }

    /// Cells that died at the latest step.
    pub closed spec fn dead_count(self) -> int {
        self.dead as int
    }

    /// The grid is well formed.
    pub closed spec fn wf_core(self) -> bool {
        &&& self.field.wf()
        &&& self.field.height() == self.height()
        &&& self.field.width() == self.width()
        &&& self.height() * self.width() <= usize::MAX
    }

    /// Every cell's scheduled state equals its visible state, as holds
    /// between commits.
    pub closed spec fn settled(self) -> bool {
        forall|i: int, j: int|
            0 <= i < self.height() && 0 <= j < self.width() ==> (#[trigger] self.grid()[i][j]).succ
                == self.grid()[i][j].curr
    }

    /// The population tally equals the number of live cells.
    pub closed spec fn counter_ok(self) -> bool {
        self.count_spec() == self.population()
    }

    /// The automaton's invariant between steps.
    pub open spec fn inv(self) -> bool {
        self.wf_core() && self.settled() && self.counter_ok()
    }

    /// A fresh all-dead colony.
    pub fn new(hgt: usize, wth: usize) -> (g: Colony)
        requires
            0 < hgt <= isize::MAX,
            0 < wth <= isize::MAX,
            hgt * wth <= usize::MAX,
        ensures
            g.inv(),
            g.height() == hgt,
            g.width() == wth,
            forall|i: int, j: int|
                0 <= i < hgt && 0 <= j < wth ==> !(#[trigger] g.curr_grid()[i][j]),
            g.population() == 0,
    {
        let g = Colony {
            field: Canvas::new(hgt, wth, Cell::new()),
            hgt,
            wth,
            cnt: 0,
            born: 0,
            dead: 0,
        };
        proof {
            lemma_count_upto_zero(|i: int, j: int| g.curr_grid()[i][j], g.height(), g.width());
        }
        g
    }

    /// Number of rows.
    pub fn rows(&self) -> (n: usize)
        ensures
            n == self.height(),
    {
        self.hgt
    }

    /// Number of columns.
    pub fn cols(&self) -> (n: usize)
        ensures
            n == self.width(),
    {
        self.wth
    }

    /// Whether the cell at `(i, j)` is alive.
    pub fn alive(&self, i: usize, j: usize) -> (b: bool)
        requires
            self.wf_core(),
            i < self.height(),
            j < self.width(),
        ensures
            b == self.curr_grid()[i as int][j as int],
    {
        self.field.get(i, j).is_alive()
    }

    /// The running number of live cells.
    pub fn count(&self) -> (n: usize)
        requires
            self.inv(),
        ensures
            n == self.population(),
    {
        self.cnt
    }

    /// How many cells came alive at the latest step.
    pub fn births(&self) -> (n: usize)
        ensures
            n == self.born_count(),
    {
        self.born
    }

    /// How many cells died at the latest step.
    pub fn deaths(&self) -> (n: usize)
        ensures
            n == self.dead_count(),
    {
        self.dead
    }

    /// The grid drawn as colors.
    pub closed spec fn colors(self) -> Seq<Seq<Color>> {
        self.field.colors()
    }

    /// The grid serialized as a plain-text PPM image.
    pub fn render_text(&self) -> (s: String)
        requires
            self.inv(),
        ensures
            s@ == crate::canvas::ppm_chars(self.colors(), self.height(), self.width()),
    {
        self.field.render_string()
    }

    /// Bring the listed cells to life (immediately visible), as the
    /// randomized initializers do with the cells they draw.
    #[verifier::loop_isolation(false)]
    pub fn init_cells(&mut self, cells: &Vec<(usize, usize)>)
        requires
            old(self).inv(),
            forall|t: int|
                0 <= t < cells@.len() ==> (#[trigger] cells@[t]).0 < old(self).height()
                    && cells@[t].1 < old(self).width(),
        ensures
            final(self).inv(),
            final(self).height() == old(self).height(),
            final(self).width() == old(self).width(),
            forall|i: int, j: int|
                0 <= i < old(self).height() && 0 <= j < old(self).width()
                    ==> #[trigger] final(self).curr_grid()[i][j] == (old(self).curr_grid()[i][j]
                    || listed(cells@, i, j)),
    {
        let ghost h = self.height();
        let ghost w = self.width();
        let ghost g0 = self.grid();
        let mut t: usize = 0;
        while t < cells.len()
            invariant
                self.wf_core(),
                self.height() == h,
                self.width() == w,
                t <= cells@.len(),
                forall|i: int, j: int|
                    0 <= i < h && 0 <= j < w ==> (#[trigger] self.grid()[i][j]).curr
                        == g0[i][j].curr,
                forall|i: int, j: int|
                    0 <= i < h && 0 <= j < w ==> (#[trigger] self.grid()[i][j]).succ == (
                    g0[i][j].succ || listed(cells@.take(t as int), i, j)),
            decreases cells@.len() - t,
        {
            let ghost gin = self.grid();
            let (i, j) = cells[t];
            let mut n = self.field.get(i, j);
            n.birth();
            self.field.set(i, j, n);
            proof {
                assert(forall|a: int, b: int|
                    0 <= a < h && 0 <= b < w && !(a == i && b == j) ==> self.grid()[a][b]
                        == gin[a][b]);
                assert(self.grid()[i as int][j as int].succ);
                assert(cells@.take(t + 1).drop_last() =~= cells@.take(t as int));
                assert(cells@.take(t + 1).last() == cells@[t as int]);
                assert forall|a: int, b: int|
                    listed(cells@.take(t + 1), a, b) == (listed(cells@.take(t as int), a, b) || (a
                        == i as int && b == j as int)) by {
                    lemma_listed_push(cells@.take(t + 1), a, b);
                }
            }
            t += 1;
        }
        proof {
            assert(cells@.take(cells@.len() as int) =~= cells@);
        }
        let ghost mid = *self;
        self.update();
        proof {
            assert forall|a: int, b: int| 0 <= a < h && 0 <= b < w implies
                #[trigger] self.curr_grid()[a][b] == (g0[a][b].curr || listed(cells@, a, b)) by {
                assert(self.grid()[a][b].curr == mid.grid()[a][b].succ);
            }
            let ghost fresh = *self;
            assert(fresh.counter_ok()) by {
                lemma_recount(fresh);
            }
        }
    }

    /// Commit every cell's scheduled state at once and recount the
    /// population.
    #[verifier::loop_isolation(false)]
    pub fn update(&mut self)
        requires
            old(self).wf_core(),
        ensures
            final(self).wf_core(),
            final(self).settled(),
            final(self).counter_ok(),
            final(self).height() == old(self).height(),
            final(self).width() == old(self).width(),
            final(self).born_count() == old(self).born_count(),
            final(self).dead_count() == old(self).dead_count(),
            forall|i: int, j: int|
                0 <= i < old(self).height() && 0 <= j < old(self).width() ==> (#[trigger] final(self).grid()[i][j]).curr == old(self).grid()[i][j].succ,
    {
        let ghost h = self.height();
        let ghost w = self.width();
        let ghost gc = self.grid();
        let hgt = self.hgt;
        let wth = self.wth;
        let mut i: usize = 0;
        while i < hgt
            invariant
                self.wf_core(),
                self.height() == h,
                self.width() == w,
                self.born_count() == old(self).born_count(),
                self.dead_count() == old(self).dead_count(),
                i <= hgt,
                forall|r: int, c: int|
                    0 <= r < i && 0 <= c < w ==> (#[trigger] self.grid()[r][c]).curr
                        == gc[r][c].succ && self.grid()[r][c].succ == gc[r][c].succ,
                forall|r: int, c: int|
                    i <= r < h && 0 <= c < w ==> #[trigger] self.grid()[r][c] == gc[r][c],
            decreases hgt - i,
        {
            let mut j: usize = 0;
            while j < wth
                invariant
                    self.wf_core(),
                    self.height() == h,
                    self.width() == w,
                    self.born_count() == old(self).born_count(),
                    self.dead_count() == old(self).dead_count(),
                    i < hgt,
                    j <= wth,
                    forall|r: int, c: int|
                        0 <= r < i && 0 <= c < w ==> (#[trigger] self.grid()[r][c]).curr
                            == gc[r][c].succ && self.grid()[r][c].succ == gc[r][c].succ,
                    forall|c: int|
                        0 <= c < j ==> (#[trigger] self.grid()[i as int][c]).curr
                            == gc[i as int][c].succ && self.grid()[i as int][c].succ
                            == gc[i as int][c].succ,
                    forall|c: int|
                        j <= c < w ==> #[trigger] self.grid()[i as int][c] == gc[i as int][c],
                    forall|r: int, c: int|
                        i < r < h && 0 <= c < w ==> #[trigger] self.grid()[r][c] == gc[r][c],
                decreases wth - j,
            {
                let ghost gin = self.grid();
                let mut cell = self.field.get(i, j);
                cell.update();
                self.field.set(i, j, cell);
                proof {
                    assert(self.grid() == gin.update(
                        i as int,
                        gin[i as int].update(j as int, cell),
                    ));
                    assert(forall|r: int, c: int|
                        0 <= r < h && 0 <= c < w && !(r == i && c == j) ==> self.grid()[r][c]
                            == gin[r][c]);
                }
                j += 1;
            }
            i += 1;
        }
        let ghost fin = *self;
        proof {
            lemma_recount(fin);
        }
        self.cnt = self.recount();
        proof {
            assert(self.grid() == fin.grid());
            assert forall|a: int, b: int| 0 <= a < h && 0 <= b < w implies
                #[trigger] self.curr_grid()[a][b] == fin.curr_grid()[a][b] by {}
            lemma_count_upto_ext(
                |a: int, b: int| self.curr_grid()[a][b],
                |a: int, b: int| fin.curr_grid()[a][b],
                h,
                w,
            );
        }
    }

    /// Count the live cells on the grid.
    #[verifier::loop_isolation(false)]
    fn recount(&self) -> (n: usize)
        requires
            self.wf_core(),
        ensures
            n == self.population(),
    {
        let ghost h = self.height();
        let ghost w = self.width();
        let ghost pa = |r: int, c: int| self.curr_grid()[r][c];
        let hgt = self.hgt;
        let wth = self.wth;
        let mut n: usize = 0;
        let mut i: usize = 0;
        while i < hgt
            invariant
                i <= hgt,
                n == count_upto(pa, i as int, w),
            decreases hgt - i,
        {
            let mut j: usize = 0;
            while j < wth
                invariant
                    i < hgt,
                    j <= wth,
                    n == count_upto(pa, i as int, w) + count_in_row(pa, i as int, j as int),
                decreases wth - j,
            {
                proof {
                    lemma_count_upto_bounds(pa, i as int, w);
                    lemma_count_in_row_bounds(pa, i as int, j as int);
                    assert(i * w + j < h * w) by (nonlinear_arith)
                        requires
                            0 <= i < h,
                            0 <= j < w,
                    ;
                }
                if self.field.get(i, j).is_alive() {
                    n += 1;
                }
                j += 1;
            }
            i += 1;
        }
        n
    }

    /// Whether the wrapped neighbor one step of `(di, dj)` away from
    /// `(i, j)` is alive.
    fn probe(&self, i: usize, j: usize, di: isize, dj: isize) -> (b: bool)
        requires
            self.wf_core(),
            i < self.height(),
            j < self.width(),
            -1 <= di <= 1,
            -1 <= dj <= 1,
        ensures
            b == at_wrapped(
                self.curr_grid(),
                self.height(),
                self.width(),
                i + di,
                j + dj,
            ),
    {
        let v = self.field.mod_get(i as isize + di, j as isize + dj);
        proof {
            vstd::arithmetic::div_mod::lemma_mod_bound(i + di, self.height());
            vstd::arithmetic::div_mod::lemma_mod_bound(j + dj, self.width());
        }
        v.is_alive()
    }

    /// Number of live cells among the eight wrapped Moore neighbors of
    /// `(i, j)`.
    fn count_neigh(&self, i: usize, j: usize) -> (n: u8)
        requires
            self.wf_core(),
            i < self.height(),
            j < self.width(),
        ensures
            n == moore_count(
                self.curr_grid(),
                self.height(),
                self.width(),
                i as int,
                j as int,
            ),
            n <= 8,
    {
        let mut res: u8 = 0;
        if self.probe(i, j, -1, -1) {
            res += 1;
        }
        if self.probe(i, j, -1, 0) {
            res += 1;
        }
        if self.probe(i, j, -1, 1) {
            res += 1;
        }
        if self.probe(i, j, 0, -1) {
            res += 1;
        }
        if self.probe(i, j, 0, 1) {
            res += 1;
        }
        if self.probe(i, j, 1, -1) {
            res += 1;
        }
        if self.probe(i, j, 1, 0) {
            res += 1;
        }
        if self.probe(i, j, 1, 1) {
            res += 1;
        }
        res
    }

    /// One synchronous step of the whole grid under the classic rules,
    /// counting the births and deaths and moving the population tally by
    /// their difference.
    #[verifier::loop_isolation(false)]
    #[verifier::rlimit(100)]
    pub fn next(&mut self)
        requires
            old(self).inv(),
        ensures
            final(self).inv(),
            final(self).height() == old(self).height(),
            final(self).width() == old(self).width(),
            final(self).curr_grid() == life_step(
                old(self).curr_grid(),
                old(self).height(),
                old(self).width(),
            ),
            final(self).born_count() == count_upto(
                |i: int, j: int|
                    !old(self).curr_grid()[i][j] && life_step(
                        old(self).curr_grid(),
                        old(self).height(),
                        old(self).width(),
                    )[i][j],
                old(self).height(),
                old(self).width(),
            ),
            final(self).dead_count() == count_upto(
                |i: int, j: int|
                    old(self).curr_grid()[i][j] && !life_step(
                        old(self).curr_grid(),
                        old(self).height(),
                        old(self).width(),
                    )[i][j],
                old(self).height(),
                old(self).width(),
            ),
    {
        self.born = 0;
        self.dead = 0;
        let ghost g0 = self.curr_grid();
        let ghost h = self.height();
        let ghost w = self.width();
        let ghost pb = |r: int, c: int| !g0[r][c] && step_cell(g0[r][c], moore_count(g0, h, w, r, c));
        let ghost pd = |r: int, c: int| g0[r][c] && !step_cell(g0[r][c], moore_count(g0, h, w, r, c));
        let hgt = self.hgt;
        let wth = self.wth;
        let mut i: usize = 0;
        while i < hgt
            invariant
                self.wf_core(),
                self.height() == h,
                self.width() == w,
                self.count_spec() == count_upto(|a: int, b: int| g0[a][b], h, w),
                i <= hgt,
                forall|r: int, c: int|
                    0 <= r < h && 0 <= c < w ==> (#[trigger] self.grid()[r][c]).curr == g0[r][c],
                forall|r: int, c: int|
                    0 <= r < i && 0 <= c < w ==> (#[trigger] self.grid()[r][c]).succ == step_cell(
                        g0[r][c],
                        moore_count(g0, h, w, r, c),
                    ),
                forall|r: int, c: int|
                    i <= r < h && 0 <= c < w ==> (#[trigger] self.grid()[r][c]).succ == g0[r][c],
                self.born_count() == count_upto(pb, i as int, w),
                self.dead_count() == count_upto(pd, i as int, w),
            decreases hgt - i,
        {
            let mut j: usize = 0;
            while j < wth
                invariant
                    self.wf_core(),
                    self.height() == h,
                    self.width() == w,
                    self.count_spec() == count_upto(|a: int, b: int| g0[a][b], h, w),
                    i < hgt,
                    j <= wth,
                    forall|r: int, c: int|
                        0 <= r < h && 0 <= c < w ==> (#[trigger] self.grid()[r][c]).curr
                            == g0[r][c],
                    forall|r: int, c: int|
                        0 <= r < i && 0 <= c < w ==> (#[trigger] self.grid()[r][c]).succ
                            == step_cell(g0[r][c], moore_count(g0, h, w, r, c)),
                    forall|c: int|
                        0 <= c < j ==> (#[trigger] self.grid()[i as int][c]).succ == step_cell(
                            g0[i as int][c],
                            moore_count(g0, h, w, i as int, c),
                        ),
                    forall|c: int|
                        j <= c < w ==> (#[trigger] self.grid()[i as int][c]).succ == g0[i as
                            int][c],
                    forall|r: int, c: int|
                        i < r < h && 0 <= c < w ==> (#[trigger] self.grid()[r][c]).succ == g0[r][c],
                    self.born_count() == count_upto(pb, i as int, w) + count_in_row(
                        pb,
                        i as int,
                        j as int,
                    ),
                    self.dead_count() == count_upto(pd, i as int, w) + count_in_row(
                        pd,
                        i as int,
                        j as int,
                    ),
                decreases wth - j,
            {
                let n = self.count_neigh(i, j);
                proof {
                    lemma_moore_count_ext(self.curr_grid(), g0, h, w, i as int, j as int);
                    lemma_count_upto_bounds(pb, i as int, w);
                    lemma_count_in_row_bounds(pb, i as int, j as int);
                    lemma_count_upto_bounds(pd, i as int, w);
                    lemma_count_in_row_bounds(pd, i as int, j as int);
                    assert(i * w + j < h * w) by (nonlinear_arith)
                        requires
                            0 <= i < h,
                            0 <= j < w,
                    ;
                }
                let ghost gin = self.grid();
                let ghost bin = self.born_count();
                let ghost din = self.dead_count();
                let mut cell = self.field.get(i, j);
                if cell.is_alive() {
                    match n {
                        2 | 3 => (),
                        _ => {
                            cell.kill();
                            self.field.set(i, j, cell);
                            self.dead = self.dead + 1;
                        },
                    }
                } else {
                    match n {
                        3 => {
                            cell.birth();
                            self.field.set(i, j, cell);
                            self.born = self.born + 1;
                        },
                        _ => (),
                    }
                }
                proof {
                    assert(forall|r: int, c: int|
                        0 <= r < h && 0 <= c < w && !(r == i && c == j) ==> self.grid()[r][c]
                            == gin[r][c]);
                    assert(self.grid()[i as int][j as int].succ == step_cell(
                        g0[i as int][j as int],
                        moore_count(g0, h, w, i as int, j as int),
                    ));
                    assert(self.born_count() == bin + if pb(i as int, j as int) {
                        1int
                    } else {
                        0int
                    });
                    assert(self.dead_count() == din + if pd(i as int, j as int) {
                        1int
                    } else {
                        0int
                    });
                }
                j += 1;
            }
            i += 1;
        }
        let ghost pre = *self;
        self.update();
        proof {
            let stepped = life_step(g0, h, w);
            assert(self.curr_grid() =~~= stepped);
            lemma_count_upto_ext(pb, |r: int, c: int| !g0[r][c] && stepped[r][c], h, w);
            lemma_count_upto_ext(pd, |r: int, c: int| g0[r][c] && !stepped[r][c], h, w);
        }
    }
}

/// The population predicate counted over a colony's own grid: helper for
/// reestablishing the tally after a commit.
proof fn lemma_recount(g: Colony)
    ensures
        g.population() == count_upto(
            |r: int, c: int| g.curr_grid()[r][c],
            g.height(),
            g.width(),
        ),
{
}

} // verus!
