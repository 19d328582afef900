//! Brian's Brain: a three-state cellular automaton. A ready cell fires
//! exactly when two of its Moore neighbors are firing, a firing cell is
//! always dying one step later, and a dying cell always returns to ready.
//!
//! Cells are double-buffered and committed all at once, as in the life-like
//! automata: the update is synchronous.

use vstd::prelude::*;

use crate::canvas::{lemma_moore_count_ext, moore_count, wrap, Canvas, Color, Colorize};
use crate::counting::{count_in_row, count_upto, lemma_count_in_row_bounds, lemma_count_upto_bounds};

verus! {

/// The three states of a cell, cycling ready, firing, dying.
#[derive(Clone, Copy, PartialEq, Eq, Structural, Debug)]
pub enum State {
    Ready,
    Firing,
    Dying,
}

impl State {
    /// The state one step along the cycle.
    pub open spec fn next_spec(self) -> State {
        match self {
            State::Ready => State::Firing,
            State::Firing => State::Dying,
            State::Dying => State::Ready,
        }
    }

    /// Step once along the cycle ready, firing, dying, ready.
    pub fn next(self) -> (s: State)
        ensures
            s == self.next_spec(),
    {
        match self {
            State::Ready => State::Firing,
            State::Firing => State::Dying,
            State::Dying => State::Ready,
        }
    }
}

/// A double-buffered cell of the automaton.
#[derive(Clone, Copy)]
pub struct Neuron {
    pub curr: State,
    pub succ: State,
}

impl Colorize for Neuron {
    open spec fn color_spec(&self) -> Color {
        match self.curr {
            State::Ready => (0, 0, 0),
            State::Firing => (25, 25, 25),
            State::Dying => (0, 0, 25),
        }
    }

    fn color(&self) -> (c: Color) {
        match self.curr {
            State::Ready => (0, 0, 0),
            State::Firing => (25, 25, 25),
            State::Dying => (0, 0, 25),
        }
    }
}

impl Neuron {
    /// A fresh neuron is ready and scheduled to stay ready.
    pub fn new() -> (n: Neuron)
        ensures
            n.curr == State::Ready,
            n.succ == State::Ready,
    {
        Neuron { curr: State::Ready, succ: State::Ready }
    }

    /// Schedule the state one step along the cycle.
    pub fn next(&mut self)
        ensures
            final(self).curr == old(self).curr,
            final(self).succ == old(self).curr.next_spec(),
    {
        self.succ = self.curr.next();
    }

    /// Commit the scheduled state.
    pub fn update(&mut self)
        ensures
            final(self).curr == old(self).succ,
            final(self).succ == old(self).succ,
    {
        self.curr = self.succ;
    }

    /// Whether the neuron is currently firing.
    pub fn is_firing(self) -> (b: bool)
        ensures
            b == (self.curr == State::Firing),
    {
        matches!(self.curr, State::Firing)
    }
}

/// The firing cells of a state grid, as flags.
pub open spec fn fire_flags(g: Seq<Seq<State>>, h: int, w: int) -> Seq<Seq<bool>> {
    Seq::new(h as nat, |i: int| Seq::new(w as nat, |j: int| g[i][j] == State::Firing))
}

/// How one cell steps: firing cells die, dying cells become ready, and a
/// ready cell fires exactly when `n == 2`.
pub open spec fn step_state(s: State, n: int) -> State {
    match s {
        State::Firing => State::Dying,
        State::Dying => State::Ready,
        State::Ready => if n == 2 {
            State::Firing
        } else {
            State::Ready
        },
    }
}

/// One synchronous step of a whole `h x w` state grid.
pub open spec fn brain_step(g: Seq<Seq<State>>, h: int, w: int) -> Seq<Seq<State>> {
    Seq::new(
        h as nat,
        |i: int|
            Seq::new(
                w as nat,
                |j: int| step_state(g[i][j], moore_count(fire_flags(g, h, w), h, w, i, j)),
            ),
    )
}

/// A firing cell is always dying one step later, a dying cell is always
/// ready one step later, and a ready cell without exactly two firing
/// neighbors stays ready, whatever the rest of the grid holds.
pub proof fn lemma_brain_cycle(g: Seq<Seq<State>>, h: int, w: int, i: int, j: int)
    requires
        0 <= i < h,
        0 <= j < w,
    ensures
        g[i][j] == State::Firing ==> brain_step(g, h, w)[i][j] == State::Dying,
        g[i][j] == State::Dying ==> brain_step(g, h, w)[i][j] == State::Ready,
        g[i][j] == State::Ready && moore_count(fire_flags(g, h, w), h, w, i, j) != 2
            ==> brain_step(g, h, w)[i][j] == State::Ready,
{
}

/// A Brian's Brain automaton: the grid of neurons and a tally of the cells
/// that fired at the latest step.
pub struct Brain {
    field: Canvas<Neuron>,
    hgt: usize,
    wth: usize,
    fired: usize,
}

impl Brain {
    /// Number of rows.
    pub closed spec fn height(self) -> int {
        self.hgt as int
    }

    /// Number of columns.
    pub closed spec fn width(self) -> int {
        self.wth as int
    }

    /// The raw neuron grid.
    pub closed spec fn grid(self) -> Seq<Seq<Neuron>> {
        self.field.cells()
    }

    /// The visible state of the grid.
    pub open spec fn curr_grid(self) -> Seq<Seq<State>> {
        Seq::new(
            self.height() as nat,
            |i: int| Seq::new(self.width() as nat, |j: int| self.grid()[i][j].curr),
        )
    }

    /// The tally of cells that fired at the latest step.
    pub closed spec fn fired_count(self) -> int {
        self.fired as int
    }

    /// The grid is well formed.
    pub closed spec fn wf_core(self) -> bool {
        &&& self.field.wf()
        &&& self.field.height() == self.height()
        &&& self.field.width() == self.width()
        &&& self.height() * self.width() <= usize::MAX
    }

    /// Every neuron's scheduled state equals its visible state, as holds
    /// between commits.
    pub closed spec fn settled(self) -> bool {
        forall|i: int, j: int|
            0 <= i < self.height() && 0 <= j < self.width() ==> (#[trigger] self.grid()[i][j]).succ
                == self.grid()[i][j].curr
    }

    /// The automaton's invariant between steps.
    pub open spec fn inv(self) -> bool {
        self.wf_core() && self.settled()
    }

    /// A fresh brain with every cell ready.
    pub fn new(hgt: usize, wth: usize) -> (b: Brain)
        requires
            0 < hgt <= isize::MAX,
            0 < wth <= isize::MAX,
            hgt * wth <= usize::MAX,
        ensures
            b.inv(),
            b.height() == hgt,
            b.width() == wth,
            forall|i: int, j: int|
                0 <= i < hgt && 0 <= j < wth ==> #[trigger] b.curr_grid()[i][j] == State::Ready,
            b.fired_count() == 0,
    {
        Brain { field: Canvas::new(hgt, wth, Neuron::new()), hgt, wth, fired: 0 }
    }

    /// Number of rows.
    pub fn rows(&self) -> (n: usize)
        ensures
            n == self.height(),
    {
        self.hgt
    }

    /// Number of columns.
    pub fn cols(&self) -> (n: usize)
        ensures
            n == self.width(),
    {
        self.wth
    }

    /// The state of the cell at `(i, j)`.
    pub fn state(&self, i: usize, j: usize) -> (s: State)
        requires
            self.wf_core(),
            i < self.height(),
            j < self.width(),
        ensures
            s == self.curr_grid()[i as int][j as int],
    {
        self.field.get(i, j).curr
    }

    /// How many cells fired at the latest step.
    pub fn fired(&self) -> (n: usize)
        ensures
            n == self.fired_count(),
    {
        self.fired
    }

    /// The grid drawn as colors.
    pub closed spec fn colors(self) -> Seq<Seq<Color>> {
        self.field.colors()
    }

    /// The grid serialized as a plain-text PPM image.
    pub fn render_text(&self) -> (s: String)
        requires
            self.inv(),
        ensures
            s@ == crate::canvas::ppm_chars(self.colors(), self.height(), self.width()),
    {
        self.field.render_string()
    }

    /// Fire the listed cells (immediately visible), as the randomized
    /// initializers do with the cells they draw.
    #[verifier::loop_isolation(false)]
    pub fn init_cells(&mut self, cells: &Vec<(usize, usize)>)
        requires
            old(self).inv(),
            forall|t: int|
                0 <= t < cells@.len() ==> (#[trigger] cells@[t]).0 < old(self).height()
                    && cells@[t].1 < old(self).width(),
        ensures
            final(self).inv(),
            final(self).height() == old(self).height(),
            final(self).width() == old(self).width(),
            forall|i: int, j: int|
                0 <= i < old(self).height() && 0 <= j < old(self).width()
                    ==> #[trigger] final(self).curr_grid()[i][j] == if listed(cells@, i, j) {
                    State::Firing
                } else {
                    old(self).curr_grid()[i][j]
                },
    {
        let ghost h = self.height();
        let ghost w = self.width();
        let ghost g0 = self.grid();
        let mut t: usize = 0;
        while t < cells.len()
            invariant
                self.wf_core(),
                self.height() == h,
                self.width() == w,
                t <= cells@.len(),
                forall|i: int, j: int|
                    0 <= i < h && 0 <= j < w ==> (#[trigger] self.grid()[i][j]).curr
                        == g0[i][j].curr,
                forall|i: int, j: int|
                    0 <= i < h && 0 <= j < w ==> (#[trigger] self.grid()[i][j]).succ == if listed(
                        cells@.take(t as int),
                        i,
                        j,
                    ) {
                        State::Firing
                    } else {
                        g0[i][j].succ
                    },
            decreases cells@.len() - t,
        {
            let ghost gin = self.grid();
            let (i, j) = cells[t];
            let mut n = self.field.get(i, j);
            n.succ = State::Firing;
            self.field.set(i, j, n);
            proof {
                assert(forall|a: int, b: int|
                    0 <= a < h && 0 <= b < w && !(a == i && b == j) ==> self.grid()[a][b]
                        == gin[a][b]);
                assert(self.grid()[i as int][j as int].succ == State::Firing);
                assert(cells@.take(t + 1).drop_last() =~= cells@.take(t as int));
                assert(cells@.take(t + 1).last() == cells@[t as int]);
                assert forall|a: int, b: int|
                    listed(cells@.take(t + 1), a, b) == (listed(cells@.take(t as int), a, b) || (a
                        == i as int && b == j as int)) by {
                    lemma_listed_push(cells@.take(t + 1), a, b);
                }
            }
            t += 1;
        }
        proof {
            assert(cells@.take(cells@.len() as int) =~= cells@);
        }
        let ghost mid = *self;
        self.update();
        proof {
            assert forall|a: int, b: int| 0 <= a < h && 0 <= b < w implies
                #[trigger] self.curr_grid()[a][b] == if listed(cells@, a, b) {
                    State::Firing
                } else {
                    g0[a][b].curr
                } by {
                assert(self.grid()[a][b].curr == mid.grid()[a][b].succ);
            }
        }
    }

    /// Commit every neuron's scheduled state at once.
    #[verifier::loop_isolation(false)]
    pub fn update(&mut self)
        requires
            old(self).wf_core(),
        ensures
            final(self).wf_core(),
            final(self).settled(),
            final(self).height() == old(self).height(),
            final(self).width() == old(self).width(),
            final(self).fired_count() == old(self).fired_count(),
            forall|i: int, j: int|
                0 <= i < old(self).height() && 0 <= j < old(self).width() ==> (#[trigger] final(self).grid()[i][j]).curr == old(self).grid()[i][j].succ,
    {
        let ghost h = self.height();
        let ghost w = self.width();
        let ghost gc = self.grid();
        let hgt = self.hgt;
        let wth = self.wth;
        let mut i: usize = 0;
        while i < hgt
            invariant
                self.wf_core(),
                self.height() == h,
                self.width() == w,
                self.fired_count() == old(self).fired_count(),
                i <= hgt,
                forall|r: int, c: int|
                    0 <= r < i && 0 <= c < w ==> (#[trigger] self.grid()[r][c]).curr
                        == gc[r][c].succ && self.grid()[r][c].succ == gc[r][c].succ,
                forall|r: int, c: int|
                    i <= r < h && 0 <= c < w ==> #[trigger] self.grid()[r][c] == gc[r][c],
            decreases hgt - i,
        {
            let mut j: usize = 0;
            while j < wth
                invariant
                    self.wf_core(),
                    self.height() == h,
                    self.width() == w,
                    self.fired_count() == old(self).fired_count(),
                    i < hgt,
                    j <= wth,
                    forall|r: int, c: int|
                        0 <= r < i && 0 <= c < w ==> (#[trigger] self.grid()[r][c]).curr
                            == gc[r][c].succ && self.grid()[r][c].succ == gc[r][c].succ,
                    forall|c: int|
                        0 <= c < j ==> (#[trigger] self.grid()[i as int][c]).curr
                            == gc[i as int][c].succ && self.grid()[i as int][c].succ
                            == gc[i as int][c].succ,
                    forall|c: int|
                        j <= c < w ==> #[trigger] self.grid()[i as int][c] == gc[i as int][c],
                    forall|r: int, c: int|
                        i < r < h && 0 <= c < w ==> #[trigger] self.grid()[r][c] == gc[r][c],
                decreases wth - j,
            {
                let ghost gin = self.grid();
                let mut cell = self.field.get(i, j);
                cell.update();
                self.field.set(i, j, cell);
                proof {
                    assert(self.grid() == gin.update(
                        i as int,
                        gin[i as int].update(j as int, cell),
                    ));
                    assert(forall|r: int, c: int|
                        0 <= r < h && 0 <= c < w && !(r == i && c == j) ==> self.grid()[r][c]
                            == gin[r][c]);
                }
                j += 1;
            }
            i += 1;
        }
    }

    /// The in-bounds position one step of `(mvi, mvj)` away from `(i, j)`,
    /// wrapping around the edges. Only single steps are meaningful, so
    /// larger offsets are ruled out by contract.
    fn index_move(&self, i: usize, j: usize, mvi: isize, mvj: isize) -> (p: (usize, usize))
        requires
            self.wf_core(),
            i < self.height(),
            j < self.width(),
            -1 <= mvi <= 1,
            -1 <= mvj <= 1,
        ensures
            p.0 == wrap(i + mvi, self.height()),
            p.1 == wrap(j + mvj, self.width()),
            p.0 < self.height(),
            p.1 < self.width(),
    {
        proof {
            crate::canvas::lemma_wrap_step(i as int, mvi as int, self.height());
            crate::canvas::lemma_wrap_step(j as int, mvj as int, self.width());
        }
        let mut ri = i;
        let mut rj = j;
        if mvi == -1 {
            if i == 0 {
                ri = self.hgt - 1;
            } else {
                ri = i - 1;
            }
        } else if mvi == 1 {
            if i == self.hgt - 1 {
                ri = 0;
            } else {
                ri = i + 1;
            }
        }
        if mvj == -1 {
            if j == 0 {
                rj = self.wth - 1;
            } else {
                rj = j - 1;
            }
        } else if mvj == 1 {
            if j == self.wth - 1 {
                rj = 0;
            } else {
                rj = j + 1;
            }
        }
        (ri, rj)
    }

    /// Whether the wrapped neighbor one step of `(mvi, mvj)` away from
    /// `(i, j)` is firing.
    fn probe(&self, i: usize, j: usize, mvi: isize, mvj: isize) -> (b: bool)
        requires
            self.wf_core(),
            i < self.height(),
            j < self.width(),
            -1 <= mvi <= 1,
            -1 <= mvj <= 1,
        ensures
            b == crate::canvas::at_wrapped(
                fire_flags(self.curr_grid(), self.height(), self.width()),
                self.height(),
                self.width(),
                i + mvi,
                j + mvj,
            ),
    {
        let p = self.index_move(i, j, mvi, mvj);
        let r = self.field.get(p.0, p.1).is_firing();
        proof {
            assert(fire_flags(self.curr_grid(), self.height(), self.width())[p.0 as int][p.1 as int]
                == (self.grid()[p.0 as int][p.1 as int].curr == State::Firing));
        }
        r
    }

    /// Number of firing cells among the eight wrapped Moore neighbors of
    /// `(i, j)`.
    fn count_neigh(&self, i: usize, j: usize) -> (n: usize)
        requires
            self.wf_core(),
            i < self.height(),
            j < self.width(),
        ensures
            n == moore_count(
                fire_flags(self.curr_grid(), self.height(), self.width()),
                self.height(),
                self.width(),
                i as int,
                j as int,
            ),
            n <= 8,
    {
        let mut res: usize = 0;
        if self.probe(i, j, -1, -1) {
            res += 1;
        }
        if self.probe(i, j, -1, 0) {
            res += 1;
        }
        if self.probe(i, j, -1, 1) {
            res += 1;
        }
        if self.probe(i, j, 0, -1) {
            res += 1;
        }
        if self.probe(i, j, 0, 1) {
            res += 1;
        }
        if self.probe(i, j, 1, -1) {
            res += 1;
        }
        if self.probe(i, j, 1, 0) {
            res += 1;
        }
        if self.probe(i, j, 1, 1) {
            res += 1;
        }
        res
    }

    /// One synchronous step of the whole grid, also counting the cells that
    /// fired.
    #[verifier::loop_isolation(false)]
    #[verifier::rlimit(100)]
    pub fn next(&mut self)
        requires
            old(self).inv(),
        ensures
            final(self).inv(),
            final(self).height() == old(self).height(),
            final(self).width() == old(self).width(),
            final(self).curr_grid() == brain_step(
                old(self).curr_grid(),
                old(self).height(),
                old(self).width(),
            ),
            final(self).fired_count() == count_upto(
                |i: int, j: int|
                    old(self).curr_grid()[i][j] == State::Ready && moore_count(
                        fire_flags(old(self).curr_grid(), old(self).height(), old(self).width()),
                        old(self).height(),
                        old(self).width(),
                        i,
                        j,
                    ) == 2,
                old(self).height(),
                old(self).width(),
            ),
    {
        self.fired = 0;
        let ghost g0 = self.curr_grid();
        let ghost h = self.height();
        let ghost w = self.width();
        let ghost flags0 = fire_flags(g0, h, w);
        let ghost pf = |r: int, c: int|
            g0[r][c] == State::Ready && moore_count(flags0, h, w, r, c) == 2;
        let hgt = self.hgt;
        let wth = self.wth;
        let mut i: usize = 0;
        while i < hgt
            invariant
                self.wf_core(),
                self.height() == h,
                self.width() == w,
                i <= hgt,
                forall|r: int, c: int|
                    0 <= r < h && 0 <= c < w ==> (#[trigger] self.grid()[r][c]).curr == g0[r][c],
                forall|r: int, c: int|
                    0 <= r < i && 0 <= c < w ==> (#[trigger] self.grid()[r][c]).succ == step_state(
                        g0[r][c],
                        moore_count(flags0, h, w, r, c),
                    ),
                forall|r: int, c: int|
                    i <= r < h && 0 <= c < w ==> (#[trigger] self.grid()[r][c]).succ == g0[r][c],
                self.fired_count() == count_upto(pf, i as int, w),
            decreases hgt - i,
        {
            let mut j: usize = 0;
            while j < wth
                invariant
                    self.wf_core(),
                    self.height() == h,
                    self.width() == w,
                    i < hgt,
                    j <= wth,
                    forall|r: int, c: int|
                        0 <= r < h && 0 <= c < w ==> (#[trigger] self.grid()[r][c]).curr
                            == g0[r][c],
                    forall|r: int, c: int|
                        0 <= r < i && 0 <= c < w ==> (#[trigger] self.grid()[r][c]).succ
                            == step_state(g0[r][c], moore_count(flags0, h, w, r, c)),
                    forall|c: int|
                        0 <= c < j ==> (#[trigger] self.grid()[i as int][c]).succ == step_state(
                            g0[i as int][c],
                            moore_count(flags0, h, w, i as int, c),
                        ),
                    forall|c: int|
                        j <= c < w ==> (#[trigger] self.grid()[i as int][c]).succ == g0[i as
                            int][c],
                    forall|r: int, c: int|
                        i < r < h && 0 <= c < w ==> (#[trigger] self.grid()[r][c]).succ == g0[r][c],
                    self.fired_count() == count_upto(pf, i as int, w) + count_in_row(
                        pf,
                        i as int,
                        j as int,
                    ),
                decreases wth - j,
            {
                let n = self.count_neigh(i, j);
                proof {
                    assert(fire_flags(self.curr_grid(), h, w) =~~= Seq::new(
                        h as nat,
                        |r: int|
                            Seq::new(w as nat, |c: int| self.curr_grid()[r][c] == State::Firing),
                    ));
                    lemma_moore_count_ext(
                        fire_flags(self.curr_grid(), h, w),
                        flags0,
                        h,
                        w,
                        i as int,
                        j as int,
                    );
                    lemma_count_upto_bounds(pf, i as int, w);
                    lemma_count_in_row_bounds(pf, i as int, j as int);
                    assert(i * w + j < h * w) by (nonlinear_arith)
                        requires
                            0 <= i < h,
                            0 <= j < w,
                    ;
                }
                let ghost gin = self.grid();
                let ghost fin = self.fired_count();
                let mut cell = self.field.get(i, j);
                match cell.curr {
                    State::Firing => {
                        cell.next();
                        self.field.set(i, j, cell);
                    },
                    State::Dying => {
                        cell.next();
                        self.field.set(i, j, cell);
                    },
                    State::Ready => {
                        if n == 2 {
                            cell.next();
                            self.field.set(i, j, cell);
                            self.fired = self.fired + 1;
                        }
                    },
                }
                proof {
                    assert(forall|r: int, c: int|
                        0 <= r < h && 0 <= c < w && !(r == i && c == j) ==> self.grid()[r][c]
                            == gin[r][c]);
                    assert(self.grid()[i as int][j as int].succ == step_state(
                        g0[i as int][j as int],
                        moore_count(flags0, h, w, i as int, j as int),
                    ));
                    assert(self.fired_count() == fin + if pf(i as int, j as int) {
                        1int
                    } else {
                        0int
                    });
                }
                j += 1;
            }
            i += 1;
        }
        let ghost pre = *self;
        self.update();
        proof {
            assert(self.curr_grid() =~~= brain_step(g0, h, w));
            assert(self.fired_count() == pre.fired_count());
        }
    }
}

/// Whether position `(i, j)` occurs in the list of cells.
pub open spec fn listed(cells: Seq<(usize, usize)>, i: int, j: int) -> bool {
    exists|t: int|
        0 <= t < cells.len() && (#[trigger] cells[t]).0 == i && cells[t].1 == j
}

/// Appending one cell to a list adds exactly that position.
proof fn lemma_listed_push(cells: Seq<(usize, usize)>, a: int, b: int)
    requires
        cells.len() > 0,
    ensures
        listed(cells, a, b) == (listed(cells.drop_last(), a, b) || (cells.last().0 == a
            && cells.last().1 == b)),
{
    if listed(cells, a, b) {
        let t = choose|t: int|
            0 <= t < cells.len() && (#[trigger] cells[t]).0 == a && cells[t].1 == b;
        if t < cells.len() - 1 {
            assert(cells.drop_last()[t] == cells[t]);
        }
    }
    if listed(cells.drop_last(), a, b) {
        let t = choose|t: int|
            0 <= t < cells.drop_last().len() && (#[trigger] cells.drop_last()[t]).0 == a
                && cells.drop_last()[t].1 == b;
        assert(cells[t] == cells.drop_last()[t]);
    }
    if cells.last().0 == a && cells.last().1 == b {
        assert(cells[cells.len() - 1].0 == a && cells[cells.len() - 1].1 == b);
    }
}

} // verus!
