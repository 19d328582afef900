//! Life-like cellular automata: Conway's Game of Life generalized over a
//! birth/survival rule table parsed from a `"B-S"` digit string.
//!
//! Cells are double-buffered: a step first schedules every cell's next state
//! from a consistent snapshot, then commits all of them at once, so the
//! update is synchronous.

use vstd::prelude::*;

use crate::canvas::{lemma_moore_count_ext, moore_count, wrap, Canvas, Color, Colorize};
use crate::counting::{
    count_upto, lemma_count_in_row_bounds, lemma_count_upto_bounds, lemma_count_upto_diff,
    lemma_count_upto_ext, lemma_count_upto_le, lemma_count_upto_zero,
};

verus! {

/// A double-buffered cell: `curr` is the visible state, `succ` the state
/// scheduled for the next commit.
#[derive(Clone, Copy)]
pub struct Cell {
    pub curr: bool,
    pub succ: bool,
}

impl Colorize for Cell {
    open spec fn color_spec(&self) -> Color {
        if self.curr {
            (25, 25, 25)
        } else {
            (0, 0, 0)
        }
    }

    fn color(&self) -> (c: Color) {
        if self.curr {
            (25, 25, 25)
        } else {
            (0, 0, 0)
        }
    }
}

impl Cell {
    /// A fresh cell is dead now and scheduled to stay dead.
    pub fn new() -> (c: Cell)
        ensures
            !c.curr,
            !c.succ,
    {
        Cell { curr: false, succ: false }
    }

    /// Schedule the cell to be alive after the next commit.
    pub fn birth(&mut self)
        ensures
            final(self).curr == old(self).curr,
            final(self).succ,
    {
        self.succ = true;
    }

    /// Schedule the cell to be dead after the next commit.
    pub fn kill(&mut self)
        ensures
            final(self).curr == old(self).curr,
            !final(self).succ,
    {
        self.succ = false;
    }

    /// Commit the scheduled state, bumping the birth or death tally when the
    /// visible state flips.
    pub fn update(&mut self, born: &mut usize, dead: &mut usize)
        requires
            *old(born) < usize::MAX,
            *old(dead) < usize::MAX,
        ensures
            final(self).curr == old(self).succ,
            final(self).succ == old(self).succ,
            *final(born) == *old(born) + ind_born(*old(self)),
            *final(dead) == *old(dead) + ind_dead(*old(self)),
    {
        if self.succ {
            if !self.curr {
                self.curr = true;
                *born += 1;
            }
        } else {
            if self.curr {
                self.curr = false;
                *dead += 1;
            }
        }
    }

    /// The visible state of the cell.
    pub fn is_alive(&self) -> (b: bool)
        ensures
            b == self.curr,
    {
        self.curr
    }
}

/// `1` if committing `c` would bring it to life, else `0`.
pub open spec fn ind_born(c: Cell) -> int {
    if c.succ && !c.curr {
        1
    } else {
        0
    }
}

/// `1` if committing `c` would kill it, else `0`.
pub open spec fn ind_dead(c: Cell) -> int {
    if !c.succ && c.curr {
        1
    } else {
        0
    }
}

/// A character standing for a neighbor count, `'0'` through `'8'`.
pub open spec fn is_rule_digit(c: char) -> bool {
    48 <= c as u32 <= 56
}

/// The neighbor count a rule digit stands for.
pub open spec fn digit_val(c: char) -> int {
    c as u32 - 48
}

/// A well-formed rule description: exactly one `'-'`, every other character
/// a digit `'0'` through `'8'`. Either side of the dash may be empty.
pub open spec fn valid_rule(s: Seq<char>) -> bool {
    exists|d: int|
        0 <= d < s.len() && s[d] == '-' && (forall|k: int|
            0 <= k < s.len() && k != d ==> is_rule_digit(#[trigger] s[k]))
}

/// Position of the dash of a well-formed rule description.
pub open spec fn dash_of(s: Seq<char>) -> int {
    choose|d: int|
        0 <= d < s.len() && s[d] == '-' && (forall|k: int|
            0 <= k < s.len() && k != d ==> is_rule_digit(#[trigger] s[k]))
}

/// Whether the rule description lists neighbor count `n` before the dash.
pub open spec fn rule_birth(s: Seq<char>, n: int) -> bool {
    exists|k: int| 0 <= k < dash_of(s) && digit_val(#[trigger] s[k]) == n
}

/// Whether the rule description lists neighbor count `n` after the dash.
pub open spec fn rule_survive(s: Seq<char>, n: int) -> bool {
    exists|k: int| dash_of(s) < k < s.len() && digit_val(#[trigger] s[k]) == n
}

/// A birth/survival rule table: for a neighbor count `n` in `0..=8`,
/// `birth_set()[n]` says whether a dead cell with `n` live neighbors is
/// born, and `survive_set()[n]` whether a live cell stays alive.
pub struct Rules {
    b: Vec<bool>,
    s: Vec<bool>,
}

impl Rules {
    /// The birth table, indexed by neighbor count.
    pub closed spec fn birth_set(self) -> Seq<bool> {
        self.b@
    }

    /// The survival table, indexed by neighbor count.
    pub closed spec fn survive_set(self) -> Seq<bool> {
        self.s@
    }

    /// Both tables cover the nine possible neighbor counts.
    pub open spec fn wf(self) -> bool {
        self.birth_set().len() == 9 && self.survive_set().len() == 9
    }

    /// Parse a `"B-S"` digit-string rule description, e.g. `"3-23"` for
    /// standard Life. Returns `None` exactly on malformed descriptions.
    pub fn new(desc: &str) -> (r: Option<Rules>)
        ensures
            r is Some <==> valid_rule(desc@),
            r matches Some(rules) ==> {
                &&& rules.wf()
                &&& forall|n: int|
                    0 <= n < 9 ==> #[trigger] rules.birth_set()[n] == rule_birth(desc@, n)
                &&& forall|n: int|
                    0 <= n < 9 ==> #[trigger] rules.survive_set()[n] == rule_survive(desc@, n)
            },
    {
        let len = desc.unicode_len();
        let mut dash: usize = 0;
        let mut found = false;
        let mut ok = true;
        let mut k: usize = 0;
        while k < len
            invariant
                k <= len,
                len == desc@.len(),
                found ==> dash < k && desc@[dash as int] == '-',
                ok ==> forall|m: int|
                    0 <= m < k ==> is_rule_digit(#[trigger] desc@[m]) || desc@[m] == '-',
                ok ==> forall|m: int|
                    0 <= m < k && m != dash ==> !found || is_rule_digit(#[trigger] desc@[m]),
                ok && !found ==> forall|m: int| 0 <= m < k ==> is_rule_digit(#[trigger] desc@[m]),
                !ok ==> !valid_rule(desc@),
            decreases len - k,
        {
            let c = desc.get_char(k);
            let d = c as u32;
            if d == 45 {
                proof {
                    assert(!is_rule_digit(desc@[k as int]));
                }
                if found {
                    proof {
                        lemma_two_dashes_invalid(desc@, dash as int, k as int);
                    }
                    ok = false;
                } else {
                    found = true;
                    dash = k;
                }
            } else if 48 <= d && d <= 56 {
                proof {
                    assert(is_rule_digit(desc@[k as int]));
                }
            } else {
                proof {
                    lemma_bad_char_invalid(desc@, k as int);
                }
                ok = false;
            }
            k += 1;
        }
        if !ok {
            return None;
        }
        if !found {
            proof {
                lemma_no_dash_invalid(desc@);
            }
            return None;
        }
        proof {
            assert(valid_rule(desc@));
            lemma_dash_unique(desc@, dash as int);
        }
        let mut b: Vec<bool> = nine_false();
        let mut s: Vec<bool> = nine_false();
        let mut k: usize = 0;
        while k < dash
            invariant
                k <= dash < len,
                len == desc@.len(),
                dash == dash_of(desc@),
                valid_rule(desc@),
                desc@[dash as int] == '-',
                forall|m: int| 0 <= m < len && m != dash ==> is_rule_digit(#[trigger] desc@[m]),
                b@.len() == 9,
                forall|n: int|
                    0 <= n < 9 ==> #[trigger] b@[n] == exists|m: int|
                        0 <= m < k && digit_val(#[trigger] desc@[m]) == n,
            decreases dash - k,
        {
            let c = desc.get_char(k);
            let idx = (c as u32 - 48) as usize;
            b[idx] = true;
            k += 1;
        }
        let mut k: usize = dash + 1;
        while k < len
            invariant
                dash < k <= len,
                len == desc@.len(),
                dash == dash_of(desc@),
                valid_rule(desc@),
                desc@[dash as int] == '-',
                forall|m: int| 0 <= m < len && m != dash ==> is_rule_digit(#[trigger] desc@[m]),
                s@.len() == 9,
                forall|n: int|
                    0 <= n < 9 ==> #[trigger] s@[n] == exists|m: int|
                        dash < m < k && digit_val(#[trigger] desc@[m]) == n,
            decreases len - k,
        {
            let c = desc.get_char(k);
            let idx = (c as u32 - 48) as usize;
            s[idx] = true;
            k += 1;
        }
        Some(Rules { b, s })
    }
}

/// Nine cleared flags, one per possible neighbor count.
fn nine_false() -> (v: Vec<bool>)
    ensures
        v@.len() == 9,
        forall|n: int| 0 <= n < 9 ==> !#[trigger] v@[n],
{
    let mut v: Vec<bool> = Vec::new();
    let mut k: usize = 0;
    while k < 9
        invariant
            k <= 9,
            v@.len() == k,
            forall|n: int| 0 <= n < k ==> !#[trigger] v@[n],
        decreases 9 - k,
    {
        v.push(false);
        k += 1;
    }
    v
}

/// How one cell steps: a live cell survives iff its neighbor count is in the
/// survival set; a dead cell is born iff its count is in the birth set.
pub open spec fn step_cell(r: Rules, alive: bool, n: int) -> bool {
    if alive {
        r.survive_set()[n]
    } else {
        r.birth_set()[n]
    }
}

/// One synchronous step of a whole `h x w` flag grid under rule table `r`.
pub open spec fn life_step(r: Rules, g: Seq<Seq<bool>>, h: int, w: int) -> Seq<Seq<bool>> {
    Seq::new(
        h as nat,
        |i: int|
            Seq::new(w as nat, |j: int| step_cell(r, g[i][j], moore_count(g, h, w, i, j))),
    )
}

/// A life-like automaton: a grid of double-buffered cells, its rule table,
/// and running population, birth and death tallies.
pub struct LifeLike {
    rules: Rules,
    field: Canvas<Cell>,
    hgt: usize,
    wth: usize,
    cnt: usize,
    born: usize,
    dead: usize,
}

impl LifeLike {
    /// Number of rows.
    pub closed spec fn height(self) -> int {
        self.hgt as int
    }

    /// Number of columns.
    pub closed spec fn width(self) -> int {
        self.wth as int
    }

    /// The rule table in force.
    pub closed spec fn rule_table(self) -> Rules {
        self.rules
    }

    /// The raw cell grid.
    pub closed spec fn grid(self) -> Seq<Seq<Cell>> {
        self.field.cells()
    }

    /// The visible state of the grid: one flag per cell.
    pub open spec fn curr_grid(self) -> Seq<Seq<bool>> {
        Seq::new(
            self.height() as nat,
            |i: int| Seq::new(self.width() as nat, |j: int| self.grid()[i][j].curr),
        )
    }

    /// Number of live cells on the grid.
    pub open spec fn population(self) -> int {
        count_upto(
            |i: int, j: int| self.curr_grid()[i][j],
            self.height(),
            self.width(),
        )
    }

    /// The running population tally.
    pub closed spec fn count_spec(self) -> int {
        self.cnt as int
    }

    /// Cells that came alive at the latest commit.
    pub closed spec fn born_count(self) -> int {
        self.born as int
    }

    /// Cells that died at the latest commit.
    pub closed spec fn dead_count(self) -> int {
        self.dead as int
    }

    /// The grid is well formed and the rule table covers all neighbor
    /// counts.
    pub closed spec fn wf_core(self) -> bool {
        &&& self.field.wf()
        &&& self.field.height() == self.height()
        &&& self.field.width() == self.width()
        &&& self.height() * self.width() <= usize::MAX
        &&& self.rules.wf()
    }

    /// Every cell's scheduled state equals its visible state, as holds
    /// between commits.
    pub closed spec fn settled(self) -> bool {
        forall|i: int, j: int|
            0 <= i < self.height() && 0 <= j < self.width() ==> (#[trigger] self.grid()[i][j]).succ
                == self.grid()[i][j].curr
    }

    /// The population tally equals the number of live cells.
    pub closed spec fn counter_ok(self) -> bool {
        self.count_spec() == self.population()
    }

    /// The automaton's invariant between steps.
    pub open spec fn inv(self) -> bool {
        self.wf_core() && self.settled() && self.counter_ok()
    }

    /// A fresh all-dead colony under the rule table parsed from `rules`;
    /// `None` exactly on a malformed rule description.
    pub fn new(hgt: usize, wth: usize, rules: &str) -> (r: Option<LifeLike>)
        requires
            0 < hgt <= isize::MAX,
            0 < wth <= isize::MAX,
            hgt * wth <= usize::MAX,
        ensures
            r is Some <==> valid_rule(rules@),
            r matches Some(g) ==> {
                &&& g.inv()
                &&& g.height() == hgt
                &&& g.width() == wth
                &&& forall|i: int, j: int|
                    0 <= i < hgt && 0 <= j < wth ==> !(#[trigger] g.curr_grid()[i][j])
                &&& g.population() == 0
                &&& forall|n: int|
                    0 <= n < 9 ==> #[trigger] g.rule_table().birth_set()[n] == rule_birth(
                        rules@,
                        n,
                    )
                &&& forall|n: int|
                    0 <= n < 9 ==> #[trigger] g.rule_table().survive_set()[n] == rule_survive(
                        rules@,
                        n,
                    )
            },
    {
        match Rules::new(rules) {
            None => None,
            Some(rt) => {
                let g = LifeLike {
                    rules: rt,
                    field: Canvas::new(hgt, wth, Cell::new()),
                    hgt,
                    wth,
                    cnt: 0,
                    born: 0,
                    dead: 0,
                };
                proof {
                    lemma_count_upto_zero(
                        |i: int, j: int| g.curr_grid()[i][j],
                        g.height(),
                        g.width(),
                    );
                }
                Some(g)
            },
        }
    }

    /// Number of rows.
    pub fn rows(&self) -> (n: usize)
        ensures
            n == self.height(),
    {
        self.hgt
    }

    /// Number of columns.
    pub fn cols(&self) -> (n: usize)
        ensures
            n == self.width(),
    {
        self.wth
    }

    /// Whether the cell at `(i, j)` is alive.
    pub fn alive(&self, i: usize, j: usize) -> (b: bool)
        requires
            self.wf_core(),
            i < self.height(),
            j < self.width(),
        ensures
            b == self.curr_grid()[i as int][j as int],
    {
        self.field.get(i, j).is_alive()
    }

    /// The running number of live cells.
    pub fn count(&self) -> (n: usize)
        requires
            self.inv(),
        ensures
            n == self.population(),
    {
        self.cnt
    }

    /// How many cells came alive at the latest commit.
    pub fn births(&self) -> (n: usize)
        ensures
            n == self.born_count(),
    {
        self.born
    }

    /// How many cells died at the latest commit.
    pub fn deaths(&self) -> (n: usize)
        ensures
            n == self.dead_count(),
    {
        self.dead
    }

    /// The in-bounds position one step of `(mvi, mvj)` away from `(i, j)`,
    /// wrapping around the edges. Only single steps are meaningful, so
    /// larger offsets are ruled out by contract.
    fn index_move(&self, i: usize, j: usize, mvi: isize, mvj: isize) -> (p: (usize, usize))
        requires
            self.wf_core(),
            i < self.height(),
            j < self.width(),
            -1 <= mvi <= 1,
            -1 <= mvj <= 1,
        ensures
            p.0 == wrap(i + mvi, self.height()),
            p.1 == wrap(j + mvj, self.width()),
            p.0 < self.height(),
            p.1 < self.width(),
    {
        proof {
            crate::canvas::lemma_wrap_step(i as int, mvi as int, self.height());
            crate::canvas::lemma_wrap_step(j as int, mvj as int, self.width());
        }
        let mut ri = i;
        let mut rj = j;
        if mvi == -1 {
            if i == 0 {
                ri = self.hgt - 1;
            } else {
                ri = i - 1;
            }
        } else if mvi == 1 {
            if i == self.hgt - 1 {
                ri = 0;
            } else {
                ri = i + 1;
            }
        }
        if mvj == -1 {
            if j == 0 {
                rj = self.wth - 1;
            } else {
                rj = j - 1;
            }
        } else if mvj == 1 {
            if j == self.wth - 1 {
                rj = 0;
            } else {
                rj = j + 1;
            }
        }
        (ri, rj)
    }

    /// Number of live cells among the eight wrapped Moore neighbors of
    /// `(i, j)`.
    #[verifier::rlimit(80)]
    fn count_neigh(&self, i: usize, j: usize) -> (n: usize)
        requires
            self.wf_core(),
            i < self.height(),
            j < self.width(),
        ensures
            n == moore_count(
                self.curr_grid(),
                self.height(),
                self.width(),
                i as int,
                j as int,
            ),
            n <= 8,
    {
        let mut res: usize = 0;
        let p = self.index_move(i, j, -1, -1);
        if self.field.get(p.0, p.1).is_alive() {
            res += 1;
        }
        let p = self.index_move(i, j, -1, 0);
        if self.field.get(p.0, p.1).is_alive() {
            res += 1;
        }
        let p = self.index_move(i, j, -1, 1);
        if self.field.get(p.0, p.1).is_alive() {
            res += 1;
        }
        let p = self.index_move(i, j, 0, -1);
        if self.field.get(p.0, p.1).is_alive() {
            res += 1;
        }
        let p = self.index_move(i, j, 0, 1);
        if self.field.get(p.0, p.1).is_alive() {
            res += 1;
        }
        let p = self.index_move(i, j, 1, -1);
        if self.field.get(p.0, p.1).is_alive() {
            res += 1;
        }
        let p = self.index_move(i, j, 1, 0);
        if self.field.get(p.0, p.1).is_alive() {
            res += 1;
        }
        let p = self.index_move(i, j, 1, 1);
        if self.field.get(p.0, p.1).is_alive() {
            res += 1;
        }
        res
    }

    /// Commit every cell's scheduled state at once and refresh the tallies:
    /// `births`/`deaths` count the cells that flipped, and the population
    /// tally moves by their difference.
    #[verifier::loop_isolation(false)]
    pub fn update(&mut self)
        requires
            old(self).wf_core(),
            old(self).counter_ok(),
        ensures
            final(self).wf_core(),
            final(self).settled(),
            final(self).counter_ok(),
            final(self).height() == old(self).height(),
            final(self).width() == old(self).width(),
            final(self).rule_table() == old(self).rule_table(),
            forall|i: int, j: int|
                0 <= i < old(self).height() && 0 <= j < old(self).width() ==> (#[trigger] final(self).grid()[i][j]).curr == old(self).grid()[i][j].succ,
            final(self).born_count() == count_upto(
                |i: int, j: int| ind_born(old(self).grid()[i][j]) == 1,
                old(self).height(),
                old(self).width(),
            ),
            final(self).dead_count() == count_upto(
                |i: int, j: int| ind_dead(old(self).grid()[i][j]) == 1,
                old(self).height(),
                old(self).width(),
            ),
    {
        self.born = 0;
        self.dead = 0;
        let ghost gc = self.grid();
        let ghost h = self.height();
        let ghost w = self.width();
        let ghost pb = |r: int, c: int| ind_born(gc[r][c]) == 1;
        let ghost pd = |r: int, c: int| ind_dead(gc[r][c]) == 1;
        let hgt = self.hgt;
        let wth = self.wth;
        let mut i: usize = 0;
        while i < hgt
            invariant
                self.wf_core(),
                self.height() == h,
                self.width() == w,
                hgt == h,
                wth == w,
                h * w <= usize::MAX,
                self.rule_table() == old(self).rule_table(),
                self.count_spec() == old(self).count_spec(),
                i <= hgt,
                forall|r: int, c: int|
                    0 <= r < i && 0 <= c < w ==> (#[trigger] self.grid()[r][c]).curr
                        == gc[r][c].succ && self.grid()[r][c].succ == gc[r][c].succ,
                forall|r: int, c: int|
                    i <= r < h && 0 <= c < w ==> #[trigger] self.grid()[r][c] == gc[r][c],
                self.born_count() == count_upto(pb, i as int, w),
                self.dead_count() == count_upto(pd, i as int, w),
            decreases hgt - i,
        {
            let mut j: usize = 0;
            while j < wth
                invariant
                    self.wf_core(),
                    self.height() == h,
                    self.width() == w,
                    hgt == h,
                    wth == w,
                    h * w <= usize::MAX,
                    self.rule_table() == old(self).rule_table(),
                    self.count_spec() == old(self).count_spec(),
                    i < hgt,
                    j <= wth,
                    forall|r: int, c: int|
                        0 <= r < i && 0 <= c < w ==> (#[trigger] self.grid()[r][c]).curr
                            == gc[r][c].succ && self.grid()[r][c].succ == gc[r][c].succ,
                    forall|c: int|
                        0 <= c < j ==> (#[trigger] self.grid()[i as int][c]).curr
                            == gc[i as int][c].succ && self.grid()[i as int][c].succ
                            == gc[i as int][c].succ,
                    forall|c: int|
                        j <= c < w ==> #[trigger] self.grid()[i as int][c] == gc[i as int][c],
                    forall|r: int, c: int|
                        i < r < h && 0 <= c < w ==> #[trigger] self.grid()[r][c] == gc[r][c],
                    self.born_count() == count_upto(pb, i as int, w) + crate::counting::count_in_row(
                        pb,
                        i as int,
                        j as int,
                    ),
                    self.dead_count() == count_upto(pd, i as int, w) + crate::counting::count_in_row(
                        pd,
                        i as int,
                        j as int,
                    ),
                decreases wth - j,
            {
                proof {
                    lemma_count_upto_bounds(pb, i as int, w);
                    lemma_count_in_row_bounds(pb, i as int, j as int);
                    lemma_count_upto_bounds(pd, i as int, w);
                    lemma_count_in_row_bounds(pd, i as int, j as int);
                    assert(i * w + j < h * w) by (nonlinear_arith)
                        requires
                            0 <= i < h,
                            0 <= j < w,
                    ;
                }
                let ghost gin = self.grid();
                let ghost bin = self.born_count();
                let mut cell = self.field.get(i, j);
                proof {
                    assert(cell == gin[i as int][j as int]);
                    assert(cell == gc[i as int][j as int]);
                }
                cell.update(&mut self.born, &mut self.dead);
                proof {
                    assert(cell.succ == gc[i as int][j as int].succ);
                    assert(cell.curr == gc[i as int][j as int].succ);
                    assert(self.born_count() == bin + ind_born(gc[i as int][j as int]));
                }
                self.field.set(i, j, cell);
                proof {
                    assert(self.grid() == gin.update(
                        i as int,
                        gin[i as int].update(j as int, cell),
                    ));
                    assert(self.grid()[i as int][j as int].succ == gc[i as int][j as int].succ);
                    assert(forall|r: int, c: int|
                        0 <= r < h && 0 <= c < w && !(r == i && c == j) ==> self.grid()[r][c]
                            == gin[r][c]);
                }
                j += 1;
            }
            i += 1;
        }
        proof {
            assert forall|r: int, c: int| 0 <= r < h && 0 <= c < w implies (#[trigger] self.grid()[r][c]).curr == gc[r][c].succ && self.grid()[r][c].succ == gc[r][c].succ by {}
            let pc = |r: int, c: int| gc[r][c].curr;
            let ps = |r: int, c: int| gc[r][c].succ;
            lemma_count_upto_ext(
                |r: int, c: int| old(self).curr_grid()[r][c],
                pc,
                h,
                w,
            );
            lemma_count_upto_le(pd, pc, h, w);
            lemma_count_upto_diff(pc, ps, h, w);
            lemma_count_upto_ext(|r: int, c: int| ps(r, c) && !pc(r, c), pb, h, w);
            lemma_count_upto_ext(|r: int, c: int| pc(r, c) && !ps(r, c), pd, h, w);
            lemma_count_upto_bounds(ps, h, w);
        }
        let ghost gfin = self.grid();
        self.cnt = self.cnt - self.dead;
        self.cnt = self.cnt + self.born;
        proof {
            assert(self.grid() == gfin);
            assert forall|r: int, c: int| 0 <= r < h && 0 <= c < w implies (#[trigger] self.grid()[r][c]).curr == gc[r][c].succ && self.grid()[r][c].succ == gc[r][c].succ by {}
            assert(self.settled());
            assert forall|r: int, c: int| 0 <= r < h && 0 <= c < w implies #[trigger] self.curr_grid()[r][c] == gc[r][c].succ by {}
            let ps = |r: int, c: int| gc[r][c].succ;
            lemma_count_upto_ext(
                |r: int, c: int| self.curr_grid()[r][c],
                ps,
                h,
                w,
            );
        }
    }

    /// One synchronous step: every cell's next state is decided from the
    /// current snapshot under the rule table, then committed at once.
    #[verifier::loop_isolation(false)]
    pub fn next(&mut self)
        requires
            old(self).inv(),
        ensures
            final(self).inv(),
            final(self).height() == old(self).height(),
            final(self).width() == old(self).width(),
            final(self).rule_table() == old(self).rule_table(),
            final(self).curr_grid() == life_step(
                old(self).rule_table(),
                old(self).curr_grid(),
                old(self).height(),
                old(self).width(),
            ),
            final(self).born_count() == count_upto(
                |i: int, j: int|
                    !old(self).curr_grid()[i][j] && life_step(
                        old(self).rule_table(),
                        old(self).curr_grid(),
                        old(self).height(),
                        old(self).width(),
                    )[i][j],
                old(self).height(),
                old(self).width(),
            ),
            final(self).dead_count() == count_upto(
                |i: int, j: int|
                    old(self).curr_grid()[i][j] && !life_step(
                        old(self).rule_table(),
                        old(self).curr_grid(),
                        old(self).height(),
                        old(self).width(),
                    )[i][j],
                old(self).height(),
                old(self).width(),
            ),
    {
        let ghost g0 = self.curr_grid();
        let ghost rt = self.rule_table();
        let ghost h = self.height();
        let ghost w = self.width();
        let hgt = self.hgt;
        let wth = self.wth;
        let mut i: usize = 0;
        while i < hgt
            invariant
                self.wf_core(),
                self.height() == h,
                self.width() == w,
                hgt == h,
                wth == w,
                self.rule_table() == rt,
                self.count_spec() == count_upto(|a: int, b: int| g0[a][b], h, w),
                i <= hgt,
                forall|r: int, c: int|
                    0 <= r < h && 0 <= c < w ==> (#[trigger] self.grid()[r][c]).curr == g0[r][c],
                forall|r: int, c: int|
                    0 <= r < i && 0 <= c < w ==> (#[trigger] self.grid()[r][c]).succ == step_cell(
                        rt,
                        g0[r][c],
                        moore_count(g0, h, w, r, c),
                    ),
                forall|r: int, c: int|
                    i <= r < h && 0 <= c < w ==> (#[trigger] self.grid()[r][c]).succ == g0[r][c],
            decreases hgt - i,
        {
            let mut j: usize = 0;
            while j < wth
                invariant
                    self.wf_core(),
                    self.height() == h,
                    self.width() == w,
                    hgt == h,
                    wth == w,
                    self.rule_table() == rt,
                    self.count_spec() == count_upto(|a: int, b: int| g0[a][b], h, w),
                    i < hgt,
                    j <= wth,
                    forall|r: int, c: int|
                        0 <= r < h && 0 <= c < w ==> (#[trigger] self.grid()[r][c]).curr
                            == g0[r][c],
                    forall|r: int, c: int|
                        0 <= r < i && 0 <= c < w ==> (#[trigger] self.grid()[r][c]).succ
                            == step_cell(rt, g0[r][c], moore_count(g0, h, w, r, c)),
                    forall|c: int|
                        0 <= c < j ==> (#[trigger] self.grid()[i as int][c]).succ == step_cell(
                            rt,
                            g0[i as int][c],
                            moore_count(g0, h, w, i as int, c),
                        ),
                    forall|c: int|
                        j <= c < w ==> (#[trigger] self.grid()[i as int][c]).succ == g0[i as
                            int][c],
                    forall|r: int, c: int|
                        i < r < h && 0 <= c < w ==> (#[trigger] self.grid()[r][c]).succ == g0[r][c],
                decreases wth - j,
            {
                let n = self.count_neigh(i, j);
                proof {
                    lemma_moore_count_ext(self.curr_grid(), g0, h, w, i as int, j as int);
                }
                let mut cell = self.field.get(i, j);
                if cell.is_alive() {
                    if !self.rules.s[n] {
                        cell.kill();
                        self.field.set(i, j, cell);
                    }
                } else {
                    if self.rules.b[n] {
                        cell.birth();
                        self.field.set(i, j, cell);
                    }
                }
                j += 1;
            }
            i += 1;
        }
        proof {
            lemma_count_upto_ext(
                |a: int, b: int| self.curr_grid()[a][b],
                |a: int, b: int| g0[a][b],
                h,
                w,
            );
        }
        let ghost pre = *self;
        self.update();
        proof {
            let stepped = life_step(rt, g0, h, w);
            assert(self.curr_grid() =~~= stepped);
            lemma_count_upto_ext(
                |r: int, c: int| ind_born(pre.grid()[r][c]) == 1,
                |r: int, c: int| !g0[r][c] && stepped[r][c],
                h,
                w,
            );
            lemma_count_upto_ext(
                |r: int, c: int| ind_dead(pre.grid()[r][c]) == 1,
                |r: int, c: int| g0[r][c] && !stepped[r][c],
                h,
                w,
            );
        }
    }

    /// The grid drawn as colors.
    pub closed spec fn colors(self) -> Seq<Seq<Color>> {
        self.field.colors()
    }

    /// The grid serialized as a plain-text PPM image.
    pub fn render_text(&self) -> (s: String)
        requires
            self.inv(),
        ensures
            s@ == crate::canvas::ppm_chars(self.colors(), self.height(), self.width()),
    {
        self.field.render_string()
    }

    /// Bring the listed cells to life (immediately visible), as the
    /// randomized initializers do with the cells they draw.
    #[verifier::loop_isolation(false)]
    pub fn init_cells(&mut self, cells: &Vec<(usize, usize)>)
        requires
            old(self).inv(),
            forall|t: int|
                0 <= t < cells@.len() ==> (#[trigger] cells@[t]).0 < old(self).height()
                    && cells@[t].1 < old(self).width(),
        ensures
            final(self).inv(),
            final(self).height() == old(self).height(),
            final(self).width() == old(self).width(),
            final(self).rule_table() == old(self).rule_table(),
            forall|i: int, j: int|
                0 <= i < old(self).height() && 0 <= j < old(self).width()
                    ==> #[trigger] final(self).curr_grid()[i][j] == (old(self).curr_grid()[i][j]
                    || listed(cells@, i, j)),
    {
        let ghost h = self.height();
        let ghost w = self.width();
        let ghost g0 = self.grid();
        let mut t: usize = 0;
        while t < cells.len()
            invariant
                self.wf_core(),
                self.height() == h,
                self.width() == w,
                self.rule_table() == old(self).rule_table(),
                self.count_spec() == old(self).count_spec(),
                t <= cells@.len(),
                forall|i: int, j: int|
                    0 <= i < h && 0 <= j < w ==> (#[trigger] self.grid()[i][j]).curr
                        == g0[i][j].curr,
                forall|i: int, j: int|
                    0 <= i < h && 0 <= j < w ==> (#[trigger] self.grid()[i][j]).succ == (
                    g0[i][j].succ || listed(cells@.take(t as int), i, j)),
            decreases cells@.len() - t,
        {
            let ghost gin = self.grid();
            let (i, j) = cells[t];
            let mut n = self.field.get(i, j);
            n.birth();
            self.field.set(i, j, n);
            proof {
                assert(forall|a: int, b: int|
                    0 <= a < h && 0 <= b < w && !(a == i && b == j) ==> self.grid()[a][b]
                        == gin[a][b]);
                assert(self.grid()[i as int][j as int].succ);
                assert(cells@.take(t + 1).drop_last() =~= cells@.take(t as int));
                assert(cells@.take(t + 1).last() == cells@[t as int]);
                assert forall|a: int, b: int|
                    listed(cells@.take(t + 1), a, b) == (listed(cells@.take(t as int), a, b) || (a
                        == i as int && b == j as int)) by {
                    lemma_listed_push(cells@.take(t + 1), a, b);
                }
            }
            t += 1;
        }
        proof {
            assert(cells@.take(cells@.len() as int) =~= cells@);
            lemma_count_upto_ext(
                |a: int, b: int| self.curr_grid()[a][b],
                |a: int, b: int| old(self).curr_grid()[a][b],
                h,
                w,
            );
        }
        let ghost mid = *self;
        self.update();
        proof {
            assert forall|a: int, b: int| 0 <= a < h && 0 <= b < w implies
                #[trigger] self.curr_grid()[a][b] == (g0[a][b].curr || listed(cells@, a, b)) by {
                assert(self.grid()[a][b].curr == mid.grid()[a][b].succ);
            }
        }
    }

    /// Stamp a pattern text onto the grid at origin `(i0, j0)` under the
    /// given orientation: `x` brings a cell to life, `.` kills it, a space
    /// leaves the cell as it is, and a newline starts the next pattern
    /// line. A text holding any other byte is rejected whole and the grid
    /// is left untouched.
    #[verifier::loop_isolation(false)]
    pub fn add_pattern(&mut self, data: &Vec<u8>, i0: isize, j0: isize, t: Transform) -> (ok: bool)
        requires
            old(self).inv(),
            i0 - data@.len() > isize::MIN,
            i0 + data@.len() < isize::MAX,
            j0 - data@.len() > isize::MIN,
            j0 + data@.len() < isize::MAX,
        ensures
            ok == valid_pattern(data@),
            final(self).inv(),
            final(self).height() == old(self).height(),
            final(self).width() == old(self).width(),
            final(self).rule_table() == old(self).rule_table(),
            !ok ==> *final(self) == *old(self),
            ok ==> forall|a: int, b: int|
                0 <= a < old(self).height() && 0 <= b < old(self).width()
                    ==> #[trigger] final(self).curr_grid()[a][b] == stamp_upto(
                    old(self).curr_grid(),
                    old(self).height(),
                    old(self).width(),
                    data@,
                    data@.len() as int,
                    i0 as int,
                    j0 as int,
                    t,
                ).0[a][b],
    {
        let len = data.len();
        let mut k: usize = 0;
        while k < len
            invariant
                k <= len,
                forall|m: int|
                    0 <= m < k ==> (#[trigger] data@[m] == 10 || data@[m] == 120 || data@[m] == 46
                        || data@[m] == 32),
            decreases len - k,
        {
            let b = data[k];
            if !(b == 10 || b == 120 || b == 46 || b == 32) {
                proof {
                    assert(!valid_pattern(data@));
                }
                return false;
            }
            k += 1;
        }
        let ghost h = self.height();
        let ghost w = self.width();
        let ghost g0 = self.curr_grid();
        let mut i: isize = i0;
        let mut j: isize = j0;
        let mut k: usize = 0;
        while k < len
            invariant
                self.wf_core(),
                self.height() == h,
                self.width() == w,
                self.rule_table() == old(self).rule_table(),
                self.count_spec() == count_upto(|a: int, b: int| g0[a][b], h, w),
                k <= len,
                i0 - k <= i <= i0 + k,
                j0 - k <= j <= j0 + k,
                forall|a: int, b: int|
                    0 <= a < h && 0 <= b < w ==> (#[trigger] self.grid()[a][b]).curr == g0[a][b],
                forall|a: int, b: int|
                    0 <= a < h && 0 <= b < w ==> (#[trigger] self.grid()[a][b]).succ == stamp_upto(
                        g0,
                        h,
                        w,
                        data@,
                        k as int,
                        i0 as int,
                        j0 as int,
                        t,
                    ).0[a][b],
                i == stamp_upto(g0, h, w, data@, k as int, i0 as int, j0 as int, t).1,
                j == stamp_upto(g0, h, w, data@, k as int, i0 as int, j0 as int, t).2,
            decreases len - k,
        {
            proof {
                lemma_stamp_dims(g0, h, w, data@, k as int, i0 as int, j0 as int, t);
            }
            let ghost gin = self.grid();
            let ghost sprev = stamp_upto(g0, h, w, data@, k as int, i0 as int, j0 as int, t);
            let b = data[k];
            if b == 10 {
                t.newline(&mut i, &mut j, i0, j0);
            } else if b == 120 {
                let p = self.field.mod_idx(i, j);
                let mut cell = self.field.get(p.0, p.1);
                cell.birth();
                self.field.set(p.0, p.1, cell);
                t.next(&mut i, &mut j);
                proof {
                    assert(forall|a: int, b2: int|
                        0 <= a < h && 0 <= b2 < w && !(a == p.0 && b2 == p.1) ==> self.grid()[a][b2]
                            == gin[a][b2]);
                    assert(self.grid()[p.0 as int][p.1 as int].succ);
                }
            } else if b == 46 {
                let p = self.field.mod_idx(i, j);
                let mut cell = self.field.get(p.0, p.1);
                cell.kill();
                self.field.set(p.0, p.1, cell);
                t.next(&mut i, &mut j);
                proof {
                    assert(forall|a: int, b2: int|
                        0 <= a < h && 0 <= b2 < w && !(a == p.0 && b2 == p.1) ==> self.grid()[a][b2]
                            == gin[a][b2]);
                    assert(!self.grid()[p.0 as int][p.1 as int].succ);
                }
            } else {
                t.next(&mut i, &mut j);
            }
            proof {
                let snext = stamp_step(sprev.0, h, w, data@[k as int], sprev.1, sprev.2, i0 as int, j0 as int, t);
                assert(stamp_upto(g0, h, w, data@, k + 1, i0 as int, j0 as int, t) == snext);
                assert forall|a: int, b2: int| 0 <= a < h && 0 <= b2 < w implies (
                #[trigger] self.grid()[a][b2]).succ == snext.0[a][b2] by {
                    vstd::arithmetic::div_mod::lemma_mod_bound(sprev.1, h);
                    vstd::arithmetic::div_mod::lemma_mod_bound(sprev.2, w);
                }
                assert(i == snext.1);
                assert(j == snext.2);
            }
            k += 1;
        }
        proof {
            lemma_count_upto_ext(
                |a: int, b: int| self.curr_grid()[a][b],
                |a: int, b: int| g0[a][b],
                h,
                w,
            );
        }
        let ghost mid = *self;
        self.update();
        proof {
            assert forall|a: int, b: int| 0 <= a < h && 0 <= b < w implies
                #[trigger] self.curr_grid()[a][b] == stamp_upto(
                g0,
                h,
                w,
                data@,
                len as int,
                i0 as int,
                j0 as int,
                t,
            ).0[a][b] by {
                assert(self.grid()[a][b].curr == mid.grid()[a][b].succ);
            }
        }
        true
    }
}

/// A quarter-turn applied to a stored pattern when it is stamped onto the
/// grid.
#[derive(Clone, Copy, PartialEq, Eq, Structural, Debug)]
pub enum Rotate {
    Upright,
    Left,
    Right,
    Double,
}

/// One of the eight symmetric orientations a stored pattern can be stamped
/// in: a quarter-turn together with an optional mirroring. The transform
/// acts on the cursor that walks the pattern text.
#[derive(Clone, Copy, PartialEq, Eq, Structural, Debug)]
pub struct Transform {
    pub rot: Rotate,
    pub mirror: bool,
}

impl Transform {
    /// Where the cursor moves after one pattern character.
    pub open spec fn next_spec(self, i: int, j: int) -> (int, int) {
        if self.mirror {
            match self.rot {
                Rotate::Upright => (i, j - 1),
                Rotate::Left => (i - 1, j),
                Rotate::Right => (i + 1, j),
                Rotate::Double => (i, j + 1),
            }
        } else {
            match self.rot {
                Rotate::Upright => (i, j + 1),
                Rotate::Left => (i - 1, j),
                Rotate::Right => (i + 1, j),
                Rotate::Double => (i, j - 1),
            }
        }
    }

    /// Where the cursor moves at a pattern newline, given the stamping
    /// origin.
    pub open spec fn newline_spec(self, i: int, j: int, i0: int, j0: int) -> (int, int) {
        if self.mirror {
            match self.rot {
                Rotate::Upright => (i + 1, j0),
                Rotate::Left => (i0, j - 1),
                Rotate::Right => (i0, j + 1),
                Rotate::Double => (i - 1, j0),
            }
        } else {
            match self.rot {
                Rotate::Upright => (i + 1, j0),
                Rotate::Left => (i0, j + 1),
                Rotate::Right => (i0, j - 1),
                Rotate::Double => (i - 1, j0),
            }
        }
    }

    /// Advance the cursor by one pattern character.
    pub fn next(&self, i: &mut isize, j: &mut isize)
        requires
            isize::MIN < *old(i) < isize::MAX,
            isize::MIN < *old(j) < isize::MAX,
        ensures
            *final(i) == self.next_spec(*old(i) as int, *old(j) as int).0,
            *final(j) == self.next_spec(*old(i) as int, *old(j) as int).1,
    {
        if self.mirror {
            match self.rot {
                Rotate::Upright => *j = *j - 1,
                Rotate::Left => *i = *i - 1,
                Rotate::Right => *i = *i + 1,
                Rotate::Double => *j = *j + 1,
            }
        } else {
            match self.rot {
                Rotate::Upright => *j = *j + 1,
                Rotate::Left => *i = *i - 1,
                Rotate::Right => *i = *i + 1,
                Rotate::Double => *j = *j - 1,
            }
        }
    }

    /// Move the cursor to the start of the next pattern line.
    pub fn newline(&self, i: &mut isize, j: &mut isize, i0: isize, j0: isize)
        requires
            isize::MIN < *old(i) < isize::MAX,
            isize::MIN < *old(j) < isize::MAX,
        ensures
            *final(i) == self.newline_spec(*old(i) as int, *old(j) as int, i0 as int, j0 as int).0,
            *final(j) == self.newline_spec(*old(i) as int, *old(j) as int, i0 as int, j0 as int).1,
    {
        if self.mirror {
            match self.rot {
                Rotate::Upright => {
                    *i = *i + 1;
                    *j = j0;
                },
                Rotate::Left => {
                    *j = *j - 1;
                    *i = i0;
                },
                Rotate::Right => {
                    *j = *j + 1;
                    *i = i0;
                },
                Rotate::Double => {
                    *i = *i - 1;
                    *j = j0;
                },
            }
        } else {
            match self.rot {
                Rotate::Upright => {
                    *i = *i + 1;
                    *j = j0;
                },
                Rotate::Left => {
                    *j = *j + 1;
                    *i = i0;
                },
                Rotate::Right => {
                    *j = *j - 1;
                    *i = i0;
                },
                Rotate::Double => {
                    *i = *i - 1;
                    *j = j0;
                },
            }
        }
    }
}

/// Whether every byte of a pattern text is one it understands: `x` for a
/// live cell, `.` for a dead one, a space to skip a cell, or a newline.
pub open spec fn valid_pattern(data: Seq<u8>) -> bool {
    forall|k: int|
        0 <= k < data.len() ==> (#[trigger] data[k] == 10 || data[k] == 120 || data[k] == 46
            || data[k] == 32)
}

/// The flag grid with the cell at the wrapped position set to `v`.
pub open spec fn set_wrapped(
    g: Seq<Seq<bool>>,
    h: int,
    w: int,
    i: int,
    j: int,
    v: bool,
) -> Seq<Seq<bool>> {
    g.update(wrap(i, h), g[wrap(i, h)].update(wrap(j, w), v))
}

/// One pattern byte acting on the grid and the cursor.
pub open spec fn stamp_step(
    g: Seq<Seq<bool>>,
    h: int,
    w: int,
    b: u8,
    i: int,
    j: int,
    i0: int,
    j0: int,
    t: Transform,
) -> (Seq<Seq<bool>>, int, int) {
    if b == 10 {
        let p = t.newline_spec(i, j, i0, j0);
        (g, p.0, p.1)
    } else if b == 120 {
        let p = t.next_spec(i, j);
        (set_wrapped(g, h, w, i, j, true), p.0, p.1)
    } else if b == 46 {
        let p = t.next_spec(i, j);
        (set_wrapped(g, h, w, i, j, false), p.0, p.1)
    } else {
        let p = t.next_spec(i, j);
        (g, p.0, p.1)
    }
}

/// The first `k` pattern bytes acting on the grid, starting the cursor at
/// the origin.
pub open spec fn stamp_upto(
    g: Seq<Seq<bool>>,
    h: int,
    w: int,
    data: Seq<u8>,
    k: int,
    i0: int,
    j0: int,
    t: Transform,
) -> (Seq<Seq<bool>>, int, int)
    decreases k,
{
    if k <= 0 {
        (g, i0, j0)
    } else {
        let p = stamp_upto(g, h, w, data, k - 1, i0, j0, t);
        stamp_step(p.0, h, w, data[k - 1], p.1, p.2, i0, j0, t)
    }
}

/// The standard Life rule description.
pub const LIFE: &'static str = "3-23";

/// Whether position `(i, j)` occurs in the list of cells.
pub open spec fn listed(cells: Seq<(usize, usize)>, i: int, j: int) -> bool {
    exists|t: int| 0 <= t < cells.len() && (#[trigger] cells[t]).0 == i && cells[t].1 == j
}

/// Appending one cell to a list adds exactly that position.
proof fn lemma_listed_push(cells: Seq<(usize, usize)>, a: int, b: int)
    requires
        cells.len() > 0,
    ensures
        listed(cells, a, b) == (listed(cells.drop_last(), a, b) || (cells.last().0 == a
            && cells.last().1 == b)),
{
    if listed(cells, a, b) {
        let t = choose|t: int|
            0 <= t < cells.len() && (#[trigger] cells[t]).0 == a && cells[t].1 == b;
        if t < cells.len() - 1 {
            assert(cells.drop_last()[t] == cells[t]);
        }
    }
    if listed(cells.drop_last(), a, b) {
        let t = choose|t: int|
            0 <= t < cells.drop_last().len() && (#[trigger] cells.drop_last()[t]).0 == a
                && cells.drop_last()[t].1 == b;
        assert(cells[t] == cells.drop_last()[t]);
    }
    if cells.last().0 == a && cells.last().1 == b {
        assert(cells[cells.len() - 1].0 == a && cells[cells.len() - 1].1 == b);
    }
}

/// Stamping keeps the grid's dimensions.
proof fn lemma_stamp_dims(
    g: Seq<Seq<bool>>,
    h: int,
    w: int,
    data: Seq<u8>,
    k: int,
    i0: int,
    j0: int,
    t: Transform,
)
    requires
        0 < h,
        0 < w,
        g.len() == h,
        forall|r: int| 0 <= r < h ==> (#[trigger] g[r]).len() == w,
    ensures
        stamp_upto(g, h, w, data, k, i0, j0, t).0.len() == h,
        forall|r: int|
            0 <= r < h ==> (#[trigger] stamp_upto(g, h, w, data, k, i0, j0, t).0[r]).len() == w,
    decreases k,
{
    if k > 0 {
        lemma_stamp_dims(g, h, w, data, k - 1, i0, j0, t);
        let p = stamp_upto(g, h, w, data, k - 1, i0, j0, t);
        vstd::arithmetic::div_mod::lemma_mod_bound(p.1, h);
        vstd::arithmetic::div_mod::lemma_mod_bound(p.2, w);
    }
}

/// A description with two dashes is not well formed.
proof fn lemma_two_dashes_invalid(s: Seq<char>, d1: int, d2: int)
    requires
        0 <= d1 < s.len(),
        0 <= d2 < s.len(),
        d1 != d2,
        s[d1] == '-',
        s[d2] == '-',
    ensures
        !valid_rule(s),
{
    assert(!is_rule_digit('-')) by {
        assert('-' as u32 == 45);
    }
}

/// A description with a character that is neither a digit nor a dash is not
/// well formed.
proof fn lemma_bad_char_invalid(s: Seq<char>, m: int)
    requires
        0 <= m < s.len(),
        !is_rule_digit(s[m]),
        s[m] != '-',
    ensures
        !valid_rule(s),
{
}

/// A description without a dash is not well formed.
proof fn lemma_no_dash_invalid(s: Seq<char>)
    requires
        forall|m: int| 0 <= m < s.len() ==> is_rule_digit(#[trigger] s[m]),
    ensures
        !valid_rule(s),
{
    assert forall|d: int| 0 <= d < s.len() implies s[d] != '-' by {
        assert(is_rule_digit(s[d]));
        assert('-' as u32 == 45);
    }
}

/// In a well-formed description the dash position is unique, so it is the
/// one `dash_of` picks.
proof fn lemma_dash_unique(s: Seq<char>, d: int)
    requires
        0 <= d < s.len(),
        s[d] == '-',
        forall|m: int| 0 <= m < s.len() && m != d ==> is_rule_digit(#[trigger] s[m]),
    ensures
        dash_of(s) == d,
        valid_rule(s),
{
    assert(valid_rule(s));
    let d2 = dash_of(s);
    assert(0 <= d2 < s.len() && s[d2] == '-');
    if d2 != d {
        assert(is_rule_digit(s[d2]));
        assert('-' as u32 == 45);
    }
}

} // verus!
