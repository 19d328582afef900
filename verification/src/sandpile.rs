//! The abelian sandpile: a grid of grain heights with open (absorbing)
//! boundaries, stabilized lazily through a work queue.
//!
//! A cell holding more than three grains is unstable: it topples, dropping
//! `height / 4` grains on each orthogonal neighbor that lies on the grid
//! (grains pushed over the edge are lost). Instead of rescanning the whole
//! grid, a FIFO queue holds exactly the cells that may be unstable; the
//! `scheduled` flag on each cell keeps it from being queued twice.

use std::collections::VecDeque;

use vstd::prelude::*;

use crate::canvas::{Canvas, Color, Colorize};
use crate::counting::{
    lemma_sum_upto_change, lemma_sum_upto_elem, lemma_sum_upto_ext, lemma_sum_upto_nonneg,
    lemma_sum_upto_zero, sum_upto,
};

verus! {

/// One pile of grains: its height and whether it already sits in the topple
/// queue.
#[derive(Clone, Copy)]
pub struct Grain {
    pub hgt: usize,
    pub scheduled: bool,
}

impl Grain {
    /// A fresh pile is empty and unscheduled.
    pub fn new() -> (g: Grain)
        ensures
            g.hgt == 0,
            !g.scheduled,
    {
        Grain { hgt: 0, scheduled: false }
    }
}

impl Colorize for Grain {
    open spec fn color_spec(&self) -> Color {
        match self.hgt {
            0 => (0, 0, 0),
            1 => (13, 4, 0),
            2 => (25, 9, 0),
            3 => (25, 20, 0),
            _ => (0, 0, 0),
        }
    }

    fn color(&self) -> (c: Color) {
        match self.hgt {
            0 => (0, 0, 0),
            1 => (13, 4, 0),
            2 => (25, 9, 0),
            3 => (25, 20, 0),
            _ => (0, 0, 0),
        }
    }
}

/// Whether `(i, j)` lies on an `h x w` grid.
pub open spec fn in_grid(h: int, w: int, i: int, j: int) -> bool {
    0 <= i < h && 0 <= j < w
}

/// Whether `(r, c)` is an orthogonal neighbor of `(i, j)`.
pub open spec fn is_neighbor(i: int, j: int, r: int, c: int) -> bool {
    ||| (r == i + 1 && c == j)
    ||| (r == i - 1 && c == j)
    ||| (r == i && c == j + 1)
    ||| (r == i && c == j - 1)
}

/// Whether the cell `(i, j)` of height grid `g` holds too many grains.
pub open spec fn unstable(g: Seq<Seq<int>>, i: int, j: int) -> bool {
    g[i][j] > 3
}

/// Whether no cell of the grid holds too many grains.
pub open spec fn stable_grid(g: Seq<Seq<int>>, h: int, w: int) -> bool {
    forall|i: int, j: int| in_grid(h, w, i, j) ==> #[trigger] g[i][j] <= 3
}

/// The height grid after toppling cell `(i, j)` once: the cell keeps
/// `height % 4` grains and each in-bounds orthogonal neighbor receives
/// `height / 4`; grains sent past the edge vanish.
pub open spec fn topple_spec(g: Seq<Seq<int>>, h: int, w: int, i: int, j: int) -> Seq<Seq<int>> {
    let fall = g[i][j] / 4;
    Seq::new(
        h as nat,
        |r: int|
            Seq::new(
                w as nat,
                |c: int|
                    if r == i && c == j {
                        g[i][j] - fall * 4
                    } else if is_neighbor(i, j, r, c) {
                        g[r][c] + fall
                    } else {
                        g[r][c]
                    },
            ),
    )
}

/// Whether the chain of topples listed in `t`, each one legal (its cell is
/// unstable when its turn comes), leads from height grid `g1` to `g2`.
pub open spec fn topples_to(
    g1: Seq<Seq<int>>,
    g2: Seq<Seq<int>>,
    h: int,
    w: int,
    t: Seq<(int, int)>,
) -> bool
    decreases t.len(),
{
    if t.len() == 0 {
        g1 == g2
    } else {
        &&& in_grid(h, w, t[0].0, t[0].1)
        &&& unstable(g1, t[0].0, t[0].1)
        &&& topples_to(topple_spec(g1, h, w, t[0].0, t[0].1), g2, h, w, t.drop_first())
    }
}

/// The parabola `i * (n - 1 - i)`, non-negative on `[0, n)` and concave;
/// one axis's share of a cell's termination weight.
pub open spec fn row_part(i: int, n: int) -> int {
    i * (n - 1 - i)
}

/// The termination weight of cell `(i, j)`: concave in each coordinate and
/// at least `2` on the grid, so that a topple strictly lowers the weighted
/// mass `phi`.
pub open spec fn weight(h: int, w: int, i: int, j: int) -> int {
    row_part(i, h) + row_part(j, w) + h + w
}

/// Sum of `wt` over the in-bounds orthogonal neighbors of `(i, j)`.
pub open spec fn nbr_sum(h: int, w: int, i: int, j: int, wt: spec_fn(int, int) -> int) -> int {
    (if in_grid(h, w, i + 1, j) {
        wt(i + 1, j)
    } else {
        0int
    }) + (if in_grid(h, w, i - 1, j) {
        wt(i - 1, j)
    } else {
        0int
    }) + (if in_grid(h, w, i, j + 1) {
        wt(i, j + 1)
    } else {
        0int
    }) + (if in_grid(h, w, i, j - 1) {
        wt(i, j - 1)
    } else {
        0int
    })
}

/// The height grid's total mass weighted by `weight`: the termination
/// measure of stabilization.
pub open spec fn phi(g: Seq<Seq<int>>, h: int, w: int) -> int {
    sum_upto(|r: int, c: int| g[r][c] * weight(h, w, r, c), h, w)
}

/// A cell's weight is at least `2`.
proof fn lemma_weight_pos(h: int, w: int, i: int, j: int)
    requires
        in_grid(h, w, i, j),
    ensures
        weight(h, w, i, j) >= 2,
{
    assert(i * (h - 1 - i) >= 0) by (nonlinear_arith)
        requires
            0 <= i < h,
    ;
    assert(j * (w - 1 - j) >= 0) by (nonlinear_arith)
        requires
            0 <= j < w,
    ;
}

/// The in-bounds vertical neighbors of a cell together weigh less than
/// twice the cell.
proof fn lemma_weight_vert(h: int, w: int, i: int, j: int)
    requires
        in_grid(h, w, i, j),
    ensures
        (if in_grid(h, w, i + 1, j) {
            weight(h, w, i + 1, j)
        } else {
            0int
        }) + (if in_grid(h, w, i - 1, j) {
            weight(h, w, i - 1, j)
        } else {
            0int
        }) <= 2 * weight(h, w, i, j) - 1,
{
    if 0 < i && i < h - 1 {
        assert(((i + 1) * (h - 1 - (i + 1)) + j * (w - 1 - j) + h + w) + ((i - 1) * (h - 1 - (i
            - 1)) + j * (w - 1 - j) + h + w) <= 2 * (i * (h - 1 - i) + j * (w - 1 - j) + h + w)
            - 1) by (nonlinear_arith)
            requires
                0 < i < h - 1,
                0 <= j < w,
        ;
    } else if i == 0 && h > 1 {
        assert((1int * (h - 1 - 1) + j * (w - 1 - j) + h + w) <= 2 * (0int * (h - 1) + j * (w - 1
            - j) + h + w) - 1) by (nonlinear_arith)
            requires
                h > 1,
                0 <= j < w,
        ;
    } else if i == h - 1 && i > 0 {
        assert(((h - 2) * (h - 1 - (h - 2)) + j * (w - 1 - j) + h + w) <= 2 * ((h - 1) * (h - 1 - (
        h - 1)) + j * (w - 1 - j) + h + w) - 1) by (nonlinear_arith)
            requires
                h > 1,
                0 <= j < w,
        ;
    } else {
        assert(0int <= 2 * (0int * (h - 1 - 0) + j * (w - 1 - j) + h + w) - 1) by (nonlinear_arith)
            requires
                h == 1,
                w >= 1,
                0 <= j < w,
        ;
    }
}

/// The in-bounds horizontal neighbors of a cell together weigh less than
/// twice the cell.
proof fn lemma_weight_horiz(h: int, w: int, i: int, j: int)
    requires
        in_grid(h, w, i, j),
    ensures
        (if in_grid(h, w, i, j + 1) {
            weight(h, w, i, j + 1)
        } else {
            0int
        }) + (if in_grid(h, w, i, j - 1) {
            weight(h, w, i, j - 1)
        } else {
            0int
        }) <= 2 * weight(h, w, i, j) - 1,
{
    if 0 < j && j < w - 1 {
        assert((i * (h - 1 - i) + (j + 1) * (w - 1 - (j + 1)) + h + w) + (i * (h - 1 - i) + (j - 1)
            * (w - 1 - (j - 1)) + h + w) <= 2 * (i * (h - 1 - i) + j * (w - 1 - j) + h + w)
            - 1) by (nonlinear_arith)
            requires
                0 < j < w - 1,
                0 <= i < h,
        ;
    } else if j == 0 && w > 1 {
        assert((i * (h - 1 - i) + 1int * (w - 1 - 1) + h + w) <= 2 * (i * (h - 1 - i) + 0int * (w
            - 1) + h + w) - 1) by (nonlinear_arith)
            requires
                w > 1,
                0 <= i < h,
        ;
    } else if j == w - 1 && j > 0 {
        assert((i * (h - 1 - i) + (w - 2) * (w - 1 - (w - 2)) + h + w) <= 2 * (i * (h - 1 - i) + (w
            - 1) * (w - 1 - (w - 1)) + h + w) - 1) by (nonlinear_arith)
            requires
                w > 1,
                0 <= i < h,
        ;
    } else {
        assert(0int <= 2 * (i * (h - 1 - i) + 0int * (w - 1 - 0) + h + w) - 1) by (nonlinear_arith)
            requires
                w == 1,
                h >= 1,
                0 <= i < h,
        ;
    }
}

/// A cell's four in-bounds neighbors together weigh at least one less than
/// four times the cell: the inequality behind termination.
proof fn lemma_weight_ineq(h: int, w: int, i: int, j: int)
    requires
        in_grid(h, w, i, j),
    ensures
        nbr_sum(h, w, i, j, |r: int, c: int| weight(h, w, r, c)) <= 4 * weight(h, w, i, j) - 2,
{
    lemma_weight_vert(h, w, i, j);
    lemma_weight_horiz(h, w, i, j);
}

/// How one topple moves any weighted sum over the grid: the toppling cell
/// gives up `4 * fall` times its weight and each in-bounds neighbor gains
/// `fall` times its own.
proof fn lemma_topple_sum(
    g: Seq<Seq<int>>,
    h: int,
    w: int,
    i: int,
    j: int,
    wt: spec_fn(int, int) -> int,
)
    requires
        in_grid(h, w, i, j),
    ensures
        sum_upto(
            |r: int, c: int| topple_spec(g, h, w, i, j)[r][c] * wt(r, c),
            h,
            w,
        ) == sum_upto(|r: int, c: int| g[r][c] * wt(r, c), h, w) - (g[i][j] / 4) * 4 * wt(i, j) + (
        g[i][j] / 4) * nbr_sum(h, w, i, j, wt),
{
    let fall = g[i][j] / 4;
    let gp = topple_spec(g, h, w, i, j);
    let f0 = |r: int, c: int| g[r][c] * wt(r, c);
    let f1 = |r: int, c: int|
        if r == i && c == j {
            (g[i][j] - fall * 4) * wt(r, c)
        } else {
            f0(r, c)
        };
    let f2 = |r: int, c: int|
        if r == i + 1 && c == j {
            (g[r][c] + fall) * wt(r, c)
        } else {
            f1(r, c)
        };
    let f3 = |r: int, c: int|
        if r == i - 1 && c == j {
            (g[r][c] + fall) * wt(r, c)
        } else {
            f2(r, c)
        };
    let f4 = |r: int, c: int|
        if r == i && c == j + 1 {
            (g[r][c] + fall) * wt(r, c)
        } else {
            f3(r, c)
        };
    let f5 = |r: int, c: int|
        if r == i && c == j - 1 {
            (g[r][c] + fall) * wt(r, c)
        } else {
            f4(r, c)
        };
    lemma_sum_upto_change(f0, f1, h, w, i, j);
    if i + 1 < h {
        lemma_sum_upto_change(f1, f2, h, w, i + 1, j);
    } else {
        lemma_sum_upto_ext(f1, f2, h, w);
    }
    if 0 <= i - 1 {
        lemma_sum_upto_change(f2, f3, h, w, i - 1, j);
    } else {
        lemma_sum_upto_ext(f2, f3, h, w);
    }
    if j + 1 < w {
        lemma_sum_upto_change(f3, f4, h, w, i, j + 1);
    } else {
        lemma_sum_upto_ext(f3, f4, h, w);
    }
    if 0 <= j - 1 {
        lemma_sum_upto_change(f4, f5, h, w, i, j - 1);
    } else {
        lemma_sum_upto_ext(f4, f5, h, w);
    }
    assert forall|r: int, c: int| 0 <= r < h && 0 <= c < w implies #[trigger] f5(r, c) == gp[r][c]
        * wt(r, c) by {
        assert(gp[r][c] == if r == i && c == j {
            g[i][j] - fall * 4
        } else if is_neighbor(i, j, r, c) {
            g[r][c] + fall
        } else {
            g[r][c]
        });
    }
    lemma_sum_upto_ext(f5, |r: int, c: int| gp[r][c] * wt(r, c), h, w);
    let t_dn = if in_grid(h, w, i + 1, j) {
        wt(i + 1, j)
    } else {
        0int
    };
    let t_up = if in_grid(h, w, i - 1, j) {
        wt(i - 1, j)
    } else {
        0int
    };
    let t_rt = if in_grid(h, w, i, j + 1) {
        wt(i, j + 1)
    } else {
        0int
    };
    let t_lt = if in_grid(h, w, i, j - 1) {
        wt(i, j - 1)
    } else {
        0int
    };
    assert((g[i][j] - fall * 4) * wt(i, j) == g[i][j] * wt(i, j) - fall * 4 * wt(i, j))
        by (nonlinear_arith);
    assert(forall|a: int, b: int, c: int| #[trigger] ((a + b) * c) == a * c + b * c)
        by (nonlinear_arith);
    assert(fall * (t_dn + t_up + t_rt + t_lt) == fall * t_dn + fall * t_up + fall * t_rt + fall
        * t_lt) by (nonlinear_arith);
}

/// A legal topple lowers the weighted mass `phi` by at least one, and `phi`
/// is never negative.
proof fn lemma_phi_topple(g: Seq<Seq<int>>, h: int, w: int, i: int, j: int)
    requires
        in_grid(h, w, i, j),
        unstable(g, i, j),
        forall|r: int, c: int| 0 <= r < h && 0 <= c < w ==> #[trigger] g[r][c] >= 0,
    ensures
        phi(topple_spec(g, h, w, i, j), h, w) <= phi(g, h, w) - 1,
        phi(g, h, w) >= 0,
        phi(topple_spec(g, h, w, i, j), h, w) >= 0,
{
    let wt = |r: int, c: int| weight(h, w, r, c);
    let fall = g[i][j] / 4;
    lemma_topple_sum(g, h, w, i, j, wt);
    lemma_sum_upto_ext(
        |r: int, c: int| g[r][c] * wt(r, c),
        |r: int, c: int| g[r][c] * weight(h, w, r, c),
        h,
        w,
    );
    lemma_sum_upto_ext(
        |r: int, c: int| topple_spec(g, h, w, i, j)[r][c] * wt(r, c),
        |r: int, c: int| topple_spec(g, h, w, i, j)[r][c] * weight(h, w, r, c),
        h,
        w,
    );
    lemma_weight_ineq(h, w, i, j);
    vstd::arithmetic::div_mod::lemma_fundamental_div_mod(g[i][j], 4);
    vstd::arithmetic::div_mod::lemma_mod_bound(g[i][j], 4);
    assert(fall >= 1);
    let s = nbr_sum(h, w, i, j, wt);
    vstd::arithmetic::mul::lemma_mul_inequality(s, 4 * wt(i, j) - 2, fall);
    assert(s * fall <= (4 * wt(i, j) - 2) * fall);
    assert(fall * s == s * fall) by (nonlinear_arith);
    assert((4 * wt(i, j) - 2) * fall == fall * 4 * wt(i, j) - 2 * fall) by (nonlinear_arith);
    assert(phi(topple_spec(g, h, w, i, j), h, w) <= phi(g, h, w) - 2 * fall);
    assert forall|r: int, c: int| 0 <= r < h && 0 <= c < w implies #[trigger] (g[r][c] * weight(
        h,
        w,
        r,
        c,
    )) >= 0 by {
        lemma_weight_pos(h, w, r, c);
        vstd::arithmetic::mul::lemma_mul_nonnegative(g[r][c], weight(h, w, r, c));
    }
    lemma_sum_upto_nonneg(|r: int, c: int| g[r][c] * weight(h, w, r, c), h, w);
    let gt = topple_spec(g, h, w, i, j);
    assert forall|r: int, c: int| 0 <= r < h && 0 <= c < w implies #[trigger] (gt[r][c] * weight(
        h,
        w,
        r,
        c,
    )) >= 0 by {
        lemma_weight_pos(h, w, r, c);
        assert(gt[r][c] >= 0);
        vstd::arithmetic::mul::lemma_mul_nonnegative(gt[r][c], weight(h, w, r, c));
    }
    lemma_sum_upto_nonneg(|r: int, c: int| gt[r][c] * weight(h, w, r, c), h, w);
}

/// A sandpile: the grid of grains, the topple work queue, and a counter of
/// topples performed.
pub struct Sandpile {
    field: Canvas<Grain>,
    hgt: usize,
    wth: usize,
    schedule: VecDeque<(usize, usize)>,
    cnt: usize,
}

impl Sandpile {
    /// Number of rows.
    pub closed spec fn height(self) -> int {
        self.hgt as int
    }

    /// Number of columns.
    pub closed spec fn width(self) -> int {
        self.wth as int
    }

    /// The raw grain grid.
    pub closed spec fn grid(self) -> Seq<Seq<Grain>> {
        self.field.cells()
    }

    /// The grain heights as a grid of integers.
    pub open spec fn heights(self) -> Seq<Seq<int>> {
        Seq::new(
            self.height() as nat,
            |i: int| Seq::new(self.width() as nat, |j: int| self.grid()[i][j].hgt as int),
        )
    }

    /// Total number of grains on the grid.
    pub open spec fn mass(self) -> int {
        sum_upto(|i: int, j: int| self.heights()[i][j], self.height(), self.width())
    }

    /// The topple work queue, oldest entry first.
    pub closed spec fn queue(self) -> Seq<(usize, usize)> {
        self.schedule@
    }

    /// Whether `(i, j)` appears in the work queue.
    pub open spec fn in_queue(self, i: int, j: int) -> bool {
        exists|k: int|
            0 <= k < self.queue().len() && (#[trigger] self.queue()[k]).0 == i && self.queue()[
                k
            ].1 == j
    }

    /// Whether the cell `(i, j)` carries the scheduled flag.
    pub closed spec fn scheduled_at(self, i: int, j: int) -> bool {
        self.grid()[i][j].scheduled
    }

    /// The running topple counter.
    pub closed spec fn count_spec(self) -> int {
        self.cnt as int
    }

    /// The sandpile's invariant: the grid is well formed; queue entries are
    /// in bounds, pairwise distinct and unstable; a cell carries the
    /// scheduled flag exactly when it is queued; every unstable cell is
    /// scheduled; and the total mass fits the machine word.
    pub closed spec fn inv(self) -> bool {
        &&& self.wf_grid()
        &&& forall|k: int|
            0 <= k < self.queue().len() ==> in_grid(
                self.height(),
                self.width(),
                (#[trigger] self.queue()[k]).0 as int,
                self.queue()[k].1 as int,
            )
        &&& forall|k1: int, k2: int|
            0 <= k1 < k2 < self.queue().len() ==> self.queue()[k1] != self.queue()[k2]
        &&& forall|i: int, j: int|
            in_grid(self.height(), self.width(), i, j) ==> ((#[trigger] self.grid()[i][j]).scheduled
                <==> self.in_queue(i, j))
        &&& forall|k: int|
            0 <= k < self.queue().len() ==> self.heights()[(#[trigger] self.queue()[k]).0 as int][
                self.queue()[k].1 as int
            ] > 3
        &&& forall|i: int, j: int|
            in_grid(self.height(), self.width(), i, j) && self.heights()[i][j] > 3 ==> (
            #[trigger] self.grid()[i][j]).scheduled
        &&& self.mass() <= usize::MAX
    }

    /// An empty sandpile of the given dimensions.
    pub fn new(i: usize, j: usize) -> (s: Sandpile)
        requires
            0 < i <= isize::MAX,
            0 < j <= isize::MAX,
        ensures
            s.inv(),
            s.height() == i,
            s.width() == j,
            forall|r: int, c: int| in_grid(i as int, j as int, r, c) ==> #[trigger] s.heights()[r][c] == 0,
            s.mass() == 0,
            s.queue().len() == 0,
            s.count_spec() == 0,
    {
        let s = Sandpile {
            field: Canvas::new(i, j, Grain::new()),
            hgt: i,
            wth: j,
            schedule: VecDeque::new(),
            cnt: 0,
        };
        proof {
            lemma_sum_upto_zero(
                |r: int, c: int| s.heights()[r][c],
                s.height(),
                s.width(),
            );
        }
        s
    }

    /// Number of rows.
    pub fn rows(&self) -> (n: usize)
        ensures
            n == self.height(),
    {
        self.hgt
    }

    /// Number of columns.
    pub fn cols(&self) -> (n: usize)
        ensures
            n == self.width(),
    {
        self.wth
    }

    /// The number of grains on cell `(i, j)`.
    pub fn grains(&self, i: usize, j: usize) -> (n: usize)
        requires
            self.inv(),
            i < self.height(),
            j < self.width(),
        ensures
            n == self.heights()[i as int][j as int],
    {
        self.field.get(i, j).hgt
    }

    /// How many entries wait in the topple queue.
    pub fn pending(&self) -> (n: usize)
        ensures
            n == self.queue().len(),
    {
        self.schedule.len()
    }

    /// How many topples have been performed so far.
    pub fn workload(&self) -> (n: usize)
        ensures
            n == self.count_spec(),
    {
        self.cnt
    }

    /// The grid drawn as colors.
    pub closed spec fn colors(self) -> Seq<Seq<Color>> {
        self.field.colors()
    }

    /// The grid serialized as a plain-text PPM image.
    pub fn render_text(&self) -> (s: String)
        requires
            self.inv(),
        ensures
            s@ == crate::canvas::ppm_chars(self.colors(), self.height(), self.width()),
    {
        self.field.render_string()
    }

    /// Reset the topple counter, as the renderer does once per frame.
    pub fn reset_workload(&mut self)
        requires
            old(self).inv(),
        ensures
            final(self).inv(),
            final(self).count_spec() == 0,
            final(self).heights() == old(self).heights(),
            final(self).queue() == old(self).queue(),
            final(self).height() == old(self).height(),
            final(self).width() == old(self).width(),
    {
        let ghost pre = *self;
        self.cnt = 0;
        proof {
            assert(self.grid() == pre.grid());
            assert(self.queue() == pre.queue());
            assert(self.heights() =~~= pre.heights());
            lemma_sum_upto_ext(
                |r: int, c: int| self.heights()[r][c],
                |r: int, c: int| pre.heights()[r][c],
                self.height(),
                self.width(),
            );
        }
    }

    /// The grid alone is well formed (the queue may be mid-update).
    pub closed spec fn wf_grid(self) -> bool {
        &&& self.field.wf()
        &&& self.field.height() == self.height()
        &&& self.field.width() == self.width()
    }

    /// Whether stepping by `(mvi, mvj)` from `(i, j)` stays on the grid;
    /// the sandpile's boundary is open, not toroidal.
    fn is_valid_move(&self, i: usize, j: usize, mvi: isize, mvj: isize) -> (b: bool)
        requires
            self.wf_grid(),
            i < self.height(),
            j < self.width(),
            -1 <= mvi <= 1,
            -1 <= mvj <= 1,
        ensures
            b == in_grid(self.height(), self.width(), i + mvi, j + mvj),
    {
        if mvi == -1 && i == 0 {
            return false;
        }
        if mvi == 1 && i == self.hgt - 1 {
            return false;
        }
        if mvj == -1 && j == 0 {
            return false;
        }
        if mvj == 1 && j == self.wth - 1 {
            return false;
        }
        true
    }

    /// The in-bounds position one step of `(mvi, mvj)` away from `(i, j)`,
    /// wrapping around the edges; the sandpile pairs it with
    /// [`Sandpile::is_valid_move`] so the wrap never takes effect.
    fn index_move(&self, i: usize, j: usize, mvi: isize, mvj: isize) -> (p: (usize, usize))
        requires
            self.wf_grid(),
            i < self.height(),
            j < self.width(),
            -1 <= mvi <= 1,
            -1 <= mvj <= 1,
        ensures
            p.0 == crate::canvas::wrap(i + mvi, self.height()),
            p.1 == crate::canvas::wrap(j + mvj, self.width()),
            p.0 < self.height(),
            p.1 < self.width(),
            in_grid(self.height(), self.width(), i + mvi, j + mvj) ==> p.0 == i + mvi && p.1 == j
                + mvj,
    {
        proof {
            crate::canvas::lemma_wrap_step(i as int, mvi as int, self.height());
            crate::canvas::lemma_wrap_step(j as int, mvj as int, self.width());
        }
        let mut ri = i;
        let mut rj = j;
        if mvi == -1 {
            if i == 0 {
                ri = self.hgt - 1;
            } else {
                ri = i - 1;
            }
        } else if mvi == 1 {
            if i == self.hgt - 1 {
                ri = 0;
            } else {
                ri = i + 1;
            }
        }
        if mvj == -1 {
            if j == 0 {
                rj = self.wth - 1;
            } else {
                rj = j - 1;
            }
        } else if mvj == 1 {
            if j == self.wth - 1 {
                rj = 0;
            } else {
                rj = j + 1;
            }
        }
        (ri, rj)
    }

    /// Whether the cell at `(i, j)` needs to be queued: too many grains and
    /// not already scheduled.
    fn is_unstable(&self, i: usize, j: usize) -> (b: bool)
        requires
            self.wf_grid(),
            i < self.height(),
            j < self.width(),
        ensures
            b == (self.heights()[i as int][j as int] > 3 && !self.scheduled_at(i as int, j as int)),
    {
        let g = self.field.get(i, j);
        g.hgt > 3 && !g.scheduled
    }

    /// Drop `amount` grains on cell `(i, j)`, queueing the cell if that
    /// leaves it unstable and it is not queued yet.
    pub fn add(&mut self, i: usize, j: usize, amount: usize)
        requires
            old(self).inv(),
            i < old(self).height(),
            j < old(self).width(),
            old(self).mass() + amount <= usize::MAX,
        ensures
            final(self).inv(),
            final(self).height() == old(self).height(),
            final(self).width() == old(self).width(),
            final(self).count_spec() == old(self).count_spec(),
            final(self).heights() == old(self).heights().update(
                i as int,
                old(self).heights()[i as int].update(
                    j as int,
                    old(self).heights()[i as int][j as int] + amount,
                ),
            ),
            final(self).mass() == old(self).mass() + amount,
            final(self).queue() == if old(self).heights()[i as int][j as int] + amount > 3
                && !old(self).scheduled_at(i as int, j as int) {
                old(self).queue().push((i, j))
            } else {
                old(self).queue()
            },
    {
        let ghost h = self.height();
        let ghost w = self.width();
        let ghost hts0 = self.heights();
        proof {
            assert forall|r: int, c: int| 0 <= r < h && 0 <= c < w implies #[trigger] hts0[r][c]
                >= 0 by {}
            lemma_sum_upto_elem(|r: int, c: int| hts0[r][c], h, w, i as int, j as int);
        }
        let mut cell = self.field.get(i, j);
        cell.hgt = cell.hgt + amount;
        self.field.set(i, j, cell);
        proof {
            assert(self.heights() =~~= hts0.update(
                i as int,
                hts0[i as int].update(j as int, hts0[i as int][j as int] + amount),
            ));
            lemma_sum_upto_change(
                |r: int, c: int| hts0[r][c],
                |r: int, c: int| self.heights()[r][c],
                h,
                w,
                i as int,
                j as int,
            );
        }
        if self.field.get(i, j).hgt > 3 && !self.field.get(i, j).scheduled {
            self.schedule.push_back((i, j));
            let mut c2 = self.field.get(i, j);
            c2.scheduled = true;
            self.field.set(i, j, c2);
            proof {
                assert(self.heights() =~~= hts0.update(
                    i as int,
                    hts0[i as int].update(j as int, hts0[i as int][j as int] + amount),
                ));
                lemma_sum_upto_ext(
                    |r: int, c: int| self.heights()[r][c],
                    |r: int, c: int|
                        hts0.update(
                            i as int,
                            hts0[i as int].update(j as int, hts0[i as int][j as int] + amount),
                        )[r][c],
                    h,
                    w,
                );
                assert forall|r: int, c: int| in_grid(h, w, r, c) implies ((#[trigger] self.grid()[
                    r
                ][c]).scheduled <==> self.in_queue(r, c)) by {
                    if r == i && c == j {
                        assert(self.queue()[self.queue().len() - 1] == (i, j));
                    } else {
                        assert(old(self).grid()[r][c].scheduled == self.grid()[r][c].scheduled);
                        if old(self).in_queue(r, c) {
                            let k = choose|k: int|
                                0 <= k < old(self).queue().len() && (#[trigger] old(
                                    self,
                                ).queue()[k]).0 == r && old(self).queue()[k].1 == c;
                            assert(self.queue()[k].0 == r && self.queue()[k].1 == c);
                        }
                        if self.in_queue(r, c) {
                            let k = choose|k: int|
                                0 <= k < self.queue().len() && (#[trigger] self.queue()[k]).0 == r
                                    && self.queue()[k].1 == c;
                            assert(0 <= k < old(self).queue().len());
                        }
                    }
                }
            }
        } else {
            proof {
                assert forall|r: int, c: int| in_grid(h, w, r, c) implies ((#[trigger] self.grid()[
                    r
                ][c]).scheduled <==> self.in_queue(r, c)) by {
                    assert(old(self).grid()[r][c].scheduled == self.grid()[r][c].scheduled);
                    lemma_same_queue_membership(*old(self), *self, r, c);
                }
            }
        }
        proof {
            assert(self.heights() =~~= add_grains(hts0, h, w, i as int, j as int, amount as int));
        }
    }

    /// Hand `fall` grains to the neighbor one step of `(mvi, mvj)` away
    /// from `(i, j)`, if that neighbor lies on the grid, and queue it when
    /// it becomes unstable.
    fn shed(&mut self, i: usize, j: usize, mvi: isize, mvj: isize, fall: usize)
        requires
            old(self).inv(),
            i < old(self).height(),
            j < old(self).width(),
            (mvi == 1 && mvj == 0) || (mvi == -1 && mvj == 0) || (mvi == 0 && mvj == 1) || (mvi
                == 0 && mvj == -1),
            old(self).mass() + fall <= usize::MAX,
        ensures
            final(self).inv(),
            final(self).height() == old(self).height(),
            final(self).width() == old(self).width(),
            final(self).count_spec() == old(self).count_spec(),
            in_grid(old(self).height(), old(self).width(), i + mvi, j + mvj) ==> final(self).heights() == old(self).heights().update(
                i + mvi,
                old(self).heights()[i + mvi].update(
                    j + mvj,
                    old(self).heights()[i + mvi][j + mvj] + fall,
                ),
            ),
            !in_grid(old(self).height(), old(self).width(), i + mvi, j + mvj) ==> final(self).heights() == old(self).heights(),
            final(self).mass() == old(self).mass() + if in_grid(
                old(self).height(),
                old(self).width(),
                i + mvi,
                j + mvj,
            ) {
                fall as int
            } else {
                0int
            },
    {
        let ghost h = self.height();
        let ghost w = self.width();
        let ghost hts0 = self.heights();
        if self.is_valid_move(i, j, mvi, mvj) {
            let p = self.index_move(i, j, mvi, mvj);
            proof {
                assert forall|r: int, c: int| 0 <= r < h && 0 <= c < w implies #[trigger] hts0[r][c]
                    >= 0 by {}
                lemma_sum_upto_elem(|r: int, c: int| hts0[r][c], h, w, p.0 as int, p.1 as int);
            }
            let mut nc = self.field.get(p.0, p.1);
            nc.hgt = nc.hgt + fall;
            self.field.set(p.0, p.1, nc);
            proof {
                assert(self.heights() =~~= hts0.update(
                    p.0 as int,
                    hts0[p.0 as int].update(p.1 as int, hts0[p.0 as int][p.1 as int] + fall),
                ));
                lemma_sum_upto_change(
                    |r: int, c: int| hts0[r][c],
                    |r: int, c: int| self.heights()[r][c],
                    h,
                    w,
                    p.0 as int,
                    p.1 as int,
                );
                assert forall|r: int, c: int| in_grid(h, w, r, c) implies ((#[trigger] self.grid()[
                    r
                ][c]).scheduled <==> self.in_queue(r, c)) by {
                    assert(old(self).grid()[r][c].scheduled == self.grid()[r][c].scheduled);
                    lemma_same_queue_membership(*old(self), *self, r, c);
                }
            }
            if self.is_unstable(p.0, p.1) {
                self.schedule.push_back((p.0, p.1));
                let mut nc2 = self.field.get(p.0, p.1);
                nc2.scheduled = true;
                self.field.set(p.0, p.1, nc2);
                proof {
                    let htsn = hts0.update(
                        p.0 as int,
                        hts0[p.0 as int].update(p.1 as int, hts0[p.0 as int][p.1 as int] + fall),
                    );
                    assert(self.heights() =~~= htsn);
                    lemma_sum_upto_ext(
                        |r: int, c: int| self.heights()[r][c],
                        |r: int, c: int| htsn[r][c],
                        h,
                        w,
                    );
                    assert forall|r: int, c: int| in_grid(h, w, r, c) implies ((
                    #[trigger] self.grid()[r][c]).scheduled <==> self.in_queue(r, c)) by {
                        if r == p.0 && c == p.1 {
                            assert(self.queue()[self.queue().len() - 1] == (p.0, p.1));
                        } else {
                            if old(self).in_queue(r, c) {
                                let k = choose|k: int|
                                    0 <= k < old(self).queue().len() && (#[trigger] old(
                                        self,
                                    ).queue()[k]).0 == r && old(self).queue()[k].1 == c;
                                assert(self.queue()[k].0 == r && self.queue()[k].1 == c);
                            }
                            if self.in_queue(r, c) {
                                let k = choose|k: int|
                                    0 <= k < self.queue().len() && (#[trigger] self.queue()[k]).0
                                        == r && self.queue()[k].1 == c;
                                assert(0 <= k < old(self).queue().len());
                            }
                        }
                    }
                }
            }
        }
    }

    /// Advance the topple counter by one, stopping at the top of the range.
    fn bump_count(&mut self)
        requires
            old(self).inv(),
        ensures
            final(self).inv(),
            final(self).height() == old(self).height(),
            final(self).width() == old(self).width(),
            final(self).heights() == old(self).heights(),
            final(self).queue() == old(self).queue(),
            final(self).mass() == old(self).mass(),
    {
        if self.cnt < usize::MAX {
            self.cnt = self.cnt + 1;
        }
        proof {
            assert(self.grid() == old(self).grid());
            assert(self.queue() == old(self).queue());
            assert(self.heights() =~~= old(self).heights());
            lemma_sum_upto_ext(
                |r: int, c: int| self.heights()[r][c],
                |r: int, c: int| old(self).heights()[r][c],
                self.height(),
                self.width(),
            );
        }
    }

    /// Invariant of a sandpile whose queue head `(i, j)` was just removed:
    /// the cell still carries the scheduled flag though it is no longer
    /// queued, and it is unstable.
    pub closed spec fn popped_inv(self, i: int, j: int) -> bool {
        &&& self.wf_grid()
        &&& in_grid(self.height(), self.width(), i, j)
        &&& forall|k: int|
            0 <= k < self.queue().len() ==> in_grid(
                self.height(),
                self.width(),
                (#[trigger] self.queue()[k]).0 as int,
                self.queue()[k].1 as int,
            )
        &&& forall|k1: int, k2: int|
            0 <= k1 < k2 < self.queue().len() ==> self.queue()[k1] != self.queue()[k2]
        &&& !self.in_queue(i, j)
        &&& self.grid()[i][j].scheduled
        &&& forall|r: int, c: int|
            in_grid(self.height(), self.width(), r, c) && !(r == i && c == j) ==> ((
            #[trigger] self.grid()[r][c]).scheduled <==> self.in_queue(r, c))
        &&& forall|k: int|
            0 <= k < self.queue().len() ==> self.heights()[(#[trigger] self.queue()[k]).0 as int][
                self.queue()[k].1 as int
            ] > 3
        &&& forall|r: int, c: int|
            in_grid(self.height(), self.width(), r, c) && self.heights()[r][c] > 3 ==> (
            #[trigger] self.grid()[r][c]).scheduled
        &&& self.heights()[i][j] > 3
        &&& self.mass() <= usize::MAX
    }

    /// Collapse the just-popped cell `(i, j)`: it keeps `height % 4` grains
    /// and each in-bounds orthogonal neighbor receives `height / 4`,
    /// newly unstable neighbors joining the queue.
    #[verifier::rlimit(100)]
    fn topple(&mut self, i: usize, j: usize)
        requires
            old(self).popped_inv(i as int, j as int),
        ensures
            final(self).inv(),
            final(self).height() == old(self).height(),
            final(self).width() == old(self).width(),
            final(self).count_spec() == old(self).count_spec(),
            final(self).heights() == topple_spec(
                old(self).heights(),
                old(self).height(),
                old(self).width(),
                i as int,
                j as int,
            ),
            final(self).mass() <= old(self).mass(),
    {
        let ghost h = self.height();
        let ghost w = self.width();
        let ghost g0 = self.heights();
        let ghost m0 = self.mass();
        let cell = self.field.get(i, j);
        let fall = cell.hgt / 4;
        proof {
            vstd::arithmetic::div_mod::lemma_fundamental_div_mod(cell.hgt as int, 4);
            vstd::arithmetic::div_mod::lemma_mod_bound(cell.hgt as int, 4);
            assert(fall >= 1);
            assert(4 * fall <= cell.hgt);
        }
        let mut c0 = cell;
        c0.scheduled = false;
        c0.hgt = cell.hgt - 4 * fall;
        self.field.set(i, j, c0);
        proof {
            assert(self.heights() =~~= g0.update(
                i as int,
                g0[i as int].update(j as int, g0[i as int][j as int] - 4 * fall),
            ));
            lemma_sum_upto_change(
                |r: int, c: int| g0[r][c],
                |r: int, c: int| self.heights()[r][c],
                h,
                w,
                i as int,
                j as int,
            );
            assert forall|r: int, c: int| in_grid(h, w, r, c) implies ((#[trigger] self.grid()[r][
                c
            ]).scheduled <==> self.in_queue(r, c)) by {
                lemma_same_queue_membership(*old(self), *self, r, c);
                if !(r == i && c == j) {
                    assert(old(self).grid()[r][c].scheduled == self.grid()[r][c].scheduled);
                }
            }
            assert forall|k: int| 0 <= k < self.queue().len() implies self.heights()[(
            #[trigger] self.queue()[k]).0 as int][self.queue()[k].1 as int] > 3 by {
                assert(self.queue()[k] == old(self).queue()[k]);
                if self.queue()[k].0 as int == i as int && self.queue()[k].1 as int == j as int {
                    assert(old(self).in_queue(i as int, j as int));
                }
                assert(self.heights()[self.queue()[k].0 as int][self.queue()[k].1 as int] == old(
                    self,
                ).heights()[self.queue()[k].0 as int][self.queue()[k].1 as int]);
            }
            assert forall|r: int, c: int|
                in_grid(h, w, r, c) && self.heights()[r][c] > 3 implies (#[trigger] self.grid()[r][
                c
            ]).scheduled by {
                if !(r == i && c == j) {
                    assert(self.heights()[r][c] == old(self).heights()[r][c]);
                    assert(old(self).grid()[r][c].scheduled == self.grid()[r][c].scheduled);
                }
            }
            lemma_sum_upto_ext(
                |r: int, c: int| g0[r][c],
                |r: int, c: int| old(self).heights()[r][c],
                h,
                w,
            );
            assert(self.mass() <= usize::MAX);
            assert forall|k: int| 0 <= k < self.queue().len() implies in_grid(
                h,
                w,
                (#[trigger] self.queue()[k]).0 as int,
                self.queue()[k].1 as int,
            ) by {
                assert(self.queue()[k] == old(self).queue()[k]);
            }
            assert forall|k1: int, k2: int|
                0 <= k1 < k2 < self.queue().len() implies self.queue()[k1] != self.queue()[
                k2
            ] by {
                assert(self.queue()[k1] == old(self).queue()[k1]);
                assert(self.queue()[k2] == old(self).queue()[k2]);
            }
            assert(self.inv());
        }
        let ghost g1 = self.heights();
        self.shed(i, j, 1, 0, fall);
        let ghost g2 = self.heights();
        self.shed(i, j, -1, 0, fall);
        let ghost g3 = self.heights();
        self.shed(i, j, 0, 1, fall);
        let ghost g4 = self.heights();
        self.shed(i, j, 0, -1, fall);
        proof {
            let gt = topple_spec(g0, h, w, i as int, j as int);
            assert forall|r: int, c: int| 0 <= r < h && 0 <= c < w implies #[trigger] self.heights()[r][c]
                == gt[r][c] by {
                assert(gt[r][c] == if r == i && c == j {
                    g0[i as int][j as int] - (g0[i as int][j as int] / 4) * 4
                } else if is_neighbor(i as int, j as int, r, c) {
                    g0[r][c] + g0[i as int][j as int] / 4
                } else {
                    g0[r][c]
                });
            }
            assert(self.heights() =~~= gt);
        }
    }

    /// Drain the work queue, toppling each popped cell until every cell is
    /// stable. The queue discipline only visits cells that may be unstable;
    /// order does not matter for the final heights.
    pub fn stabilize(&mut self)
        requires
            old(self).inv(),
        ensures
            final(self).inv(),
            final(self).height() == old(self).height(),
            final(self).width() == old(self).width(),
            final(self).queue().len() == 0,
            stable_grid(final(self).heights(), old(self).height(), old(self).width()),
            exists|t: Seq<(int, int)>|
                topples_to(
                    old(self).heights(),
                    final(self).heights(),
                    old(self).height(),
                    old(self).width(),
                    t,
                ),
            final(self).mass() <= old(self).mass(),
            old(self).queue().len() == 0 ==> final(self).heights() == old(self).heights()
                && final(self).count_spec() == old(self).count_spec(),
    {
        let ghost h = self.height();
        let ghost w = self.width();
        let ghost g0 = self.heights();
        let ghost m0 = self.mass();
        let ghost q0 = self.queue().len() as int;
        let ghost mut trace: Seq<(int, int)> = Seq::empty();
        proof {
            assert(topples_to(g0, self.heights(), h, w, trace));
        }
        #[verifier::loop_isolation(false)]
        while self.schedule.len() != 0
            invariant
                self.inv(),
                self.height() == h,
                self.width() == w,
                topples_to(g0, self.heights(), h, w, trace),
                self.mass() <= m0,
                q0 == 0 ==> self.heights() == g0 && self.queue().len() == 0 && self.count_spec()
                    == old(self).count_spec(),
            decreases phi(self.heights(), h, w),
        {
            let ghost spre = *self;
            let p = self.schedule.pop_front();
            match p {
                Some(pair) => {
                    let (i, j) = pair;
                    proof {
                        assert(self.grid() == spre.grid());
                        assert(self.heights() =~~= spre.heights());
                        lemma_sum_upto_ext(
                            |r: int, c: int| self.heights()[r][c],
                            |r: int, c: int| spre.heights()[r][c],
                            h,
                            w,
                        );
                        assert(spre.queue()[0] == (i, j));
                        assert(spre.in_queue(i as int, j as int)) by {
                            assert((spre.queue()[0]).0 == i as int && spre.queue()[0].1
                                == j as int);
                        }
                        assert(spre.grid()[i as int][j as int].scheduled);
                        assert(spre.heights()[i as int][j as int] > 3);
                        assert(!self.in_queue(i as int, j as int)) by {
                            if self.in_queue(i as int, j as int) {
                                let k = choose|k: int|
                                    0 <= k < self.queue().len() && (#[trigger] self.queue()[k]).0
                                        == i as int && self.queue()[k].1 == j as int;
                                assert(self.queue()[k] == spre.queue()[k + 1]);
                                assert(spre.queue()[k + 1] == spre.queue()[0]);
                            }
                        }
                        assert forall|r: int, c: int|
                            in_grid(h, w, r, c) && !(r == i as int && c == j as int) implies ((
                        #[trigger] self.grid()[r][c]).scheduled <==> self.in_queue(r, c)) by {
                            if spre.in_queue(r, c) {
                                let k = choose|k: int|
                                    0 <= k < spre.queue().len() && (#[trigger] spre.queue()[k]).0
                                        == r && spre.queue()[k].1 == c;
                                assert(k != 0);
                                assert(self.queue()[k - 1] == spre.queue()[k]);
                                assert(self.in_queue(r, c));
                            }
                            if self.in_queue(r, c) {
                                let k = choose|k: int|
                                    0 <= k < self.queue().len() && (#[trigger] self.queue()[k]).0
                                        == r && self.queue()[k].1 == c;
                                assert(self.queue()[k] == spre.queue()[k + 1]);
                                assert(spre.in_queue(r, c));
                            }
                        }
                        assert forall|k: int| 0 <= k < self.queue().len() implies in_grid(
                            h,
                            w,
                            (#[trigger] self.queue()[k]).0 as int,
                            self.queue()[k].1 as int,
                        ) && self.heights()[self.queue()[k].0 as int][self.queue()[k].1 as int]
                            > 3 by {
                            assert(self.queue()[k] == spre.queue()[k + 1]);
                        }
                        assert forall|k1: int, k2: int|
                            0 <= k1 < k2 < self.queue().len() implies self.queue()[k1]
                            != self.queue()[k2] by {
                            assert(self.queue()[k1] == spre.queue()[k1 + 1]);
                            assert(self.queue()[k2] == spre.queue()[k2 + 1]);
                        }
                        assert(self.popped_inv(i as int, j as int));
                    }
                    let ghost gpre = self.heights();
                    self.topple(i, j);
                    self.bump_count();
                    proof {
                        lemma_phi_topple(gpre, h, w, i as int, j as int);
                        lemma_topples_to_step(g0, gpre, h, w, trace, (i as int, j as int));
                        assert(topples_to(g0, spre.heights(), h, w, trace));
                        assert(topples_to(
                            g0,
                            topple_spec(gpre, h, w, i as int, j as int),
                            h,
                            w,
                            trace.push((i as int, j as int)),
                        ));
                        trace = trace.push((i as int, j as int));
                    }
                },
                None => {
                    proof {
                        assert(false);
                    }
                },
            }
        }
        proof {
            assert forall|r: int, c: int| in_grid(h, w, r, c) implies #[trigger] self.heights()[r][
                c
            ] <= 3 by {
                if self.heights()[r][c] > 3 {
                    assert(self.grid()[r][c].scheduled);
                    assert(self.in_queue(r, c));
                }
            }
        }
    }
}

/// When exactly one cell of a grid is unstable and a single topple of that
/// cell stabilizes the grid, then every legal topple chain that stabilizes
/// the grid consists of that one topple: the origin cell ends reduced by
/// four times `height / 4` and each in-bounds orthogonal neighbor ends
/// raised by `height / 4`.
pub proof fn lemma_single_topple_run(
    g: Seq<Seq<int>>,
    gf: Seq<Seq<int>>,
    h: int,
    w: int,
    i: int,
    j: int,
    t: Seq<(int, int)>,
)
    requires
        in_grid(h, w, i, j),
        unstable(g, i, j),
        forall|r: int, c: int|
            in_grid(h, w, r, c) && !(r == i && c == j) ==> #[trigger] g[r][c] <= 3,
        stable_grid(topple_spec(g, h, w, i, j), h, w),
        topples_to(g, gf, h, w, t),
        stable_grid(gf, h, w),
    ensures
        gf == topple_spec(g, h, w, i, j),
        t.len() == 1,
{
    if t.len() == 0 {
        assert(gf[i][j] > 3);
        assert(false);
    } else {
        let p = t[0];
        assert(p.0 == i && p.1 == j);
        let g1 = topple_spec(g, h, w, i, j);
        assert(topples_to(g1, gf, h, w, t.drop_first()));
        if t.drop_first().len() == 0 {
            assert(gf == g1);
        } else {
            let q = t.drop_first()[0];
            assert(unstable(g1, q.0, q.1));
            assert(g1[q.0][q.1] <= 3);
            assert(false);
        }
    }
}

/// The height grid after one elementary firing of cell `(i, j)`: four
/// grains leave it and each in-bounds orthogonal neighbor receives one. A
/// topple is `height / 4` consecutive elementary firings of one cell.
pub open spec fn fire_spec(g: Seq<Seq<int>>, h: int, w: int, i: int, j: int) -> Seq<Seq<int>> {
    Seq::new(
        h as nat,
        |r: int|
            Seq::new(
                w as nat,
                |c: int|
                    if r == i && c == j {
                        g[i][j] - 4
                    } else if is_neighbor(i, j, r, c) {
                        g[r][c] + 1
                    } else {
                        g[r][c]
                    },
            ),
    )
}

/// Whether the chain of elementary firings listed in `t`, each one legal,
/// leads from height grid `g1` to `g2`.
pub open spec fn fires_to(
    g1: Seq<Seq<int>>,
    g2: Seq<Seq<int>>,
    h: int,
    w: int,
    t: Seq<(int, int)>,
) -> bool
    decreases t.len(),
{
    if t.len() == 0 {
        g1 == g2
    } else {
        &&& in_grid(h, w, t[0].0, t[0].1)
        &&& unstable(g1, t[0].0, t[0].1)
        &&& fires_to(fire_spec(g1, h, w, t[0].0, t[0].1), g2, h, w, t.drop_first())
    }
}

/// Elementary firings of two distinct cells commute exactly: the grains
/// each firing moves do not depend on the heights.
proof fn lemma_fire_diamond(g: Seq<Seq<int>>, h: int, w: int, a: (int, int), b: (int, int))
    requires
        in_grid(h, w, a.0, a.1),
        in_grid(h, w, b.0, b.1),
        !(a.0 == b.0 && a.1 == b.1),
    ensures
        fire_spec(fire_spec(g, h, w, a.0, a.1), h, w, b.0, b.1) == fire_spec(
            fire_spec(g, h, w, b.0, b.1),
            h,
            w,
            a.0,
            a.1,
        ),
{
    let lhs = fire_spec(fire_spec(g, h, w, a.0, a.1), h, w, b.0, b.1);
    let rhs = fire_spec(fire_spec(g, h, w, b.0, b.1), h, w, a.0, a.1);
    assert forall|r: int, c: int| 0 <= r < h && 0 <= c < w implies #[trigger] lhs[r][c]
        == rhs[r][c] by {}
    assert(lhs =~~= rhs);
}

/// Firing one cell never lowers any other cell, so other unstable cells
/// stay unstable.
proof fn lemma_fire_keeps_unstable(g: Seq<Seq<int>>, h: int, w: int, a: (int, int), b: (int, int))
    requires
        in_grid(h, w, a.0, a.1),
        in_grid(h, w, b.0, b.1),
        !(a.0 == b.0 && a.1 == b.1),
        unstable(g, b.0, b.1),
    ensures
        unstable(fire_spec(g, h, w, a.0, a.1), b.0, b.1),
{
}

/// Legal firing chains compose.
proof fn lemma_fires_to_concat(
    g1: Seq<Seq<int>>,
    g2: Seq<Seq<int>>,
    g3: Seq<Seq<int>>,
    h: int,
    w: int,
    ta: Seq<(int, int)>,
    tb: Seq<(int, int)>,
)
    requires
        fires_to(g1, g2, h, w, ta),
        fires_to(g2, g3, h, w, tb),
    ensures
        fires_to(g1, g3, h, w, ta + tb),
    decreases ta.len(),
{
    if ta.len() == 0 {
        assert(ta + tb =~= tb);
    } else {
        lemma_fires_to_concat(
            fire_spec(g1, h, w, ta[0].0, ta[0].1),
            g2,
            g3,
            h,
            w,
            ta.drop_first(),
            tb,
        );
        assert((ta + tb)[0] == ta[0]);
        assert((ta + tb).drop_first() =~= ta.drop_first() + tb);
    }
}

/// The strip lemma: when a grid reaches a stable grid by some firing chain
/// and one of its unstable cells is fired first instead, the stable grid is
/// still reachable.
proof fn lemma_fire_strip(
    g: Seq<Seq<int>>,
    h: int,
    w: int,
    b: (int, int),
    z: Seq<Seq<int>>,
    t: Seq<(int, int)>,
)
    requires
        in_grid(h, w, b.0, b.1),
        unstable(g, b.0, b.1),
        fires_to(g, z, h, w, t),
        stable_grid(z, h, w),
    ensures
        exists|t2: Seq<(int, int)>| fires_to(fire_spec(g, h, w, b.0, b.1), z, h, w, t2),
    decreases t.len(),
{
    if t.len() == 0 {
        assert(z[b.0][b.1] > 3);
        assert(false);
    } else {
        let a = t[0];
        if a.0 == b.0 && a.1 == b.1 {
            assert(fires_to(fire_spec(g, h, w, b.0, b.1), z, h, w, t.drop_first()));
        } else {
            let g1 = fire_spec(g, h, w, a.0, a.1);
            lemma_fire_keeps_unstable(g, h, w, a, b);
            lemma_fire_strip(g1, h, w, b, z, t.drop_first());
            let t2p = choose|t2p: Seq<(int, int)>|
                fires_to(fire_spec(g1, h, w, b.0, b.1), z, h, w, t2p);
            lemma_fire_diamond(g, h, w, a, b);
            lemma_fire_keeps_unstable(g, h, w, b, a);
            let gb = fire_spec(g, h, w, b.0, b.1);
            let tw = seq![a] + t2p;
            assert(tw[0] == a);
            assert(tw.drop_first() =~= t2p);
            assert(fire_spec(gb, h, w, a.0, a.1) == fire_spec(g1, h, w, b.0, b.1));
            assert(fires_to(gb, z, h, w, tw));
        }
    }
}

/// Every firing chain from one grid to a stable grid ends in the same
/// heights.
proof fn lemma_fires_unique(
    g: Seq<Seq<int>>,
    h: int,
    w: int,
    z1: Seq<Seq<int>>,
    z2: Seq<Seq<int>>,
    t1: Seq<(int, int)>,
    t2: Seq<(int, int)>,
)
    requires
        fires_to(g, z1, h, w, t1),
        stable_grid(z1, h, w),
        fires_to(g, z2, h, w, t2),
        stable_grid(z2, h, w),
    ensures
        z1 == z2,
    decreases t1.len(),
{
    if t1.len() == 0 {
        if t2.len() > 0 {
            assert(unstable(g, t2[0].0, t2[0].1));
            assert(z1[t2[0].0][t2[0].1] > 3);
            assert(false);
        }
    } else {
        let a = t1[0];
        let g1 = fire_spec(g, h, w, a.0, a.1);
        lemma_fire_strip(g, h, w, (a.0, a.1), z2, t2);
        let t2p = choose|t2p: Seq<(int, int)>| fires_to(g1, z2, h, w, t2p);
        lemma_fires_unique(g1, h, w, z1, z2, t1.drop_first(), t2p);
    }
}

/// The grid after `k` elementary firings of cell `(i, j)`.
pub open spec fn multi_fire(g: Seq<Seq<int>>, h: int, w: int, i: int, j: int, k: int) -> Seq<
    Seq<int>,
> {
    Seq::new(
        h as nat,
        |r: int|
            Seq::new(
                w as nat,
                |c: int|
                    if r == i && c == j {
                        g[i][j] - 4 * k
                    } else if is_neighbor(i, j, r, c) {
                        g[r][c] + k
                    } else {
                        g[r][c]
                    },
            ),
    )
}

/// As long as the cell stays unstable, `k` consecutive elementary firings
/// of it form a legal chain.
proof fn lemma_multi_fire(g: Seq<Seq<int>>, h: int, w: int, i: int, j: int, k: int)
    requires
        in_grid(h, w, i, j),
        1 <= k <= g[i][j] / 4,
    ensures
        exists|t: Seq<(int, int)>| fires_to(g, multi_fire(g, h, w, i, j, k), h, w, t),
    decreases k,
{
    vstd::arithmetic::div_mod::lemma_fundamental_div_mod(g[i][j], 4);
    vstd::arithmetic::div_mod::lemma_mod_bound(g[i][j], 4);
    if k == 1 {
        let t = seq![(i, j)];
        assert(t.len() == 1);
        assert(t[0] == (i, j));
        assert(t[0].0 == i && t[0].1 == j);
        assert(g[i][j] > 3);
        assert(t.drop_first() =~= Seq::<(int, int)>::empty());
        assert(fire_spec(g, h, w, i, j) =~~= multi_fire(g, h, w, i, j, 1));
        assert(fires_to(
            fire_spec(g, h, w, t[0].0, t[0].1),
            multi_fire(g, h, w, i, j, 1),
            h,
            w,
            t.drop_first(),
        ));
        assert(fires_to(g, multi_fire(g, h, w, i, j, 1), h, w, t));
    } else {
        lemma_multi_fire(g, h, w, i, j, k - 1);
        let gk = multi_fire(g, h, w, i, j, k - 1);
        let ta = choose|ta: Seq<(int, int)>| fires_to(g, gk, h, w, ta);
        assert(gk[i][j] == g[i][j] - 4 * (k - 1));
        assert(gk[i][j] > 3) by (nonlinear_arith)
            requires
                gk[i][j] == g[i][j] - 4 * (k - 1),
                k <= g[i][j] / 4,
                g[i][j] == 4 * (g[i][j] / 4) + g[i][j] % 4,
                g[i][j] % 4 >= 0,
        ;
        let tb = seq![(i, j)];
        assert(tb.len() == 1);
        assert(tb[0] == (i, j));
        assert(tb[0].0 == i && tb[0].1 == j);
        assert(unstable(gk, i, j));
        assert(tb.drop_first() =~= Seq::<(int, int)>::empty());
        assert(fire_spec(gk, h, w, i, j) =~~= multi_fire(g, h, w, i, j, k));
        assert(fires_to(
            fire_spec(gk, h, w, tb[0].0, tb[0].1),
            multi_fire(g, h, w, i, j, k),
            h,
            w,
            tb.drop_first(),
        ));
        assert(fires_to(gk, multi_fire(g, h, w, i, j, k), h, w, tb));
        lemma_fires_to_concat(g, gk, multi_fire(g, h, w, i, j, k), h, w, ta, tb);
    }
}

/// One topple is a legal chain of elementary firings.
proof fn lemma_topple_as_fires(g: Seq<Seq<int>>, h: int, w: int, i: int, j: int)
    requires
        in_grid(h, w, i, j),
        unstable(g, i, j),
    ensures
        exists|t: Seq<(int, int)>| fires_to(g, topple_spec(g, h, w, i, j), h, w, t),
{
    vstd::arithmetic::div_mod::lemma_fundamental_div_mod(g[i][j], 4);
    vstd::arithmetic::div_mod::lemma_mod_bound(g[i][j], 4);
    let fall = g[i][j] / 4;
    lemma_multi_fire(g, h, w, i, j, fall);
    let t = choose|t: Seq<(int, int)>| fires_to(g, multi_fire(g, h, w, i, j, fall), h, w, t);
    assert(multi_fire(g, h, w, i, j, fall) =~~= topple_spec(g, h, w, i, j));
}

/// A legal topple chain is a legal chain of elementary firings.
proof fn lemma_topples_as_fires(
    g: Seq<Seq<int>>,
    gf: Seq<Seq<int>>,
    h: int,
    w: int,
    t: Seq<(int, int)>,
)
    requires
        topples_to(g, gf, h, w, t),
    ensures
        exists|t2: Seq<(int, int)>| fires_to(g, gf, h, w, t2),
    decreases t.len(),
{
    if t.len() == 0 {
        let te = Seq::<(int, int)>::empty();
        assert(fires_to(g, gf, h, w, te));
    } else {
        let a = t[0];
        let g1 = topple_spec(g, h, w, a.0, a.1);
        lemma_topple_as_fires(g, h, w, a.0, a.1);
        let ta = choose|ta: Seq<(int, int)>| fires_to(g, g1, h, w, ta);
        lemma_topples_as_fires(g1, gf, h, w, t.drop_first());
        let tb = choose|tb: Seq<(int, int)>| fires_to(g1, gf, h, w, tb);
        lemma_fires_to_concat(g, g1, gf, h, w, ta, tb);
    }
}

/// The abelian property: two legal topple chains from the same height grid
/// that both end stable end in the same heights, whatever order the cells
/// were processed in and however long the chains are.
pub proof fn lemma_abelian(
    g: Seq<Seq<int>>,
    h: int,
    w: int,
    gf1: Seq<Seq<int>>,
    gf2: Seq<Seq<int>>,
    t1: Seq<(int, int)>,
    t2: Seq<(int, int)>,
)
    requires
        topples_to(g, gf1, h, w, t1),
        stable_grid(gf1, h, w),
        topples_to(g, gf2, h, w, t2),
        stable_grid(gf2, h, w),
    ensures
        gf1 == gf2,
{
    lemma_topples_as_fires(g, gf1, h, w, t1);
    lemma_topples_as_fires(g, gf2, h, w, t2);
    let e1 = choose|e1: Seq<(int, int)>| fires_to(g, gf1, h, w, e1);
    let e2 = choose|e2: Seq<(int, int)>| fires_to(g, gf2, h, w, e2);
    lemma_fires_unique(g, h, w, gf1, gf2, e1, e2);
}

/// The height grid with `x` more grains on cell `(i, j)`.
pub open spec fn add_grains(g: Seq<Seq<int>>, h: int, w: int, i: int, j: int, x: int) -> Seq<
    Seq<int>,
> {
    Seq::new(
        h as nat,
        |r: int|
            Seq::new(
                w as nat,
                |c: int|
                    if r == i && c == j {
                        g[i][j] + x
                    } else {
                        g[r][c]
                    },
            ),
    )
}

/// Dropping grains on a cell preserves the legality of a firing chain: the
/// same firings still apply with the extra grains carried along.
proof fn lemma_fires_to_add(
    g1: Seq<Seq<int>>,
    g2: Seq<Seq<int>>,
    h: int,
    w: int,
    t: Seq<(int, int)>,
    i: int,
    j: int,
    x: int,
)
    requires
        fires_to(g1, g2, h, w, t),
        in_grid(h, w, i, j),
        x >= 0,
    ensures
        fires_to(add_grains(g1, h, w, i, j, x), add_grains(g2, h, w, i, j, x), h, w, t),
    decreases t.len(),
{
    if t.len() == 0 {
        assert(add_grains(g1, h, w, i, j, x) == add_grains(g2, h, w, i, j, x));
    } else {
        let a = t[0];
        let g1f = fire_spec(g1, h, w, a.0, a.1);
        lemma_fires_to_add(g1f, g2, h, w, t.drop_first(), i, j, x);
        assert(unstable(add_grains(g1, h, w, i, j, x), a.0, a.1)) by {
            assert(add_grains(g1, h, w, i, j, x)[a.0][a.1] >= g1[a.0][a.1]);
        }
        assert(fire_spec(add_grains(g1, h, w, i, j, x), h, w, a.0, a.1) =~~= add_grains(
            g1f,
            h,
            w,
            i,
            j,
            x,
        ));
        assert(fires_to(add_grains(g1, h, w, i, j, x), add_grains(g2, h, w, i, j, x), h, w, t));
    }
}

/// Additions commute with stabilization: dropping grains on a cell and
/// stabilizing gives the same stable heights whether the grid was
/// stabilized before the drop or not.
pub proof fn lemma_add_then_stabilize(
    g: Seq<Seq<int>>,
    h: int,
    w: int,
    i: int,
    j: int,
    x: int,
    z1: Seq<Seq<int>>,
    z2: Seq<Seq<int>>,
    z3: Seq<Seq<int>>,
    t1: Seq<(int, int)>,
    t2: Seq<(int, int)>,
    t3: Seq<(int, int)>,
)
    requires
        in_grid(h, w, i, j),
        x >= 0,
        topples_to(g, z1, h, w, t1),
        stable_grid(z1, h, w),
        topples_to(add_grains(g, h, w, i, j, x), z2, h, w, t2),
        stable_grid(z2, h, w),
        topples_to(add_grains(z1, h, w, i, j, x), z3, h, w, t3),
        stable_grid(z3, h, w),
    ensures
        z2 == z3,
{
    lemma_topples_as_fires(g, z1, h, w, t1);
    let e1 = choose|e1: Seq<(int, int)>| fires_to(g, z1, h, w, e1);
    lemma_fires_to_add(g, z1, h, w, e1, i, j, x);
    let ga = add_grains(g, h, w, i, j, x);
    let za = add_grains(z1, h, w, i, j, x);
    lemma_topples_as_fires(za, z3, h, w, t3);
    let e3 = choose|e3: Seq<(int, int)>| fires_to(za, z3, h, w, e3);
    lemma_fires_to_concat(ga, za, z3, h, w, e1, e3);
    lemma_topples_as_fires(ga, z2, h, w, t2);
    let e2 = choose|e2: Seq<(int, int)>| fires_to(ga, z2, h, w, e2);
    lemma_fires_unique(ga, h, w, z2, z3, e2, e1 + e3);
}

/// Two sandpile values with the same queue agree on queue membership.
proof fn lemma_same_queue_membership(s1: Sandpile, s2: Sandpile, r: int, c: int)
    requires
        s1.queue() == s2.queue(),
    ensures
        s1.in_queue(r, c) == s2.in_queue(r, c),
{
    if s1.in_queue(r, c) {
        let k = choose|k: int|
            0 <= k < s1.queue().len() && (#[trigger] s1.queue()[k]).0 == r && s1.queue()[k].1 == c;
        assert((s2.queue()[k]).0 == r && s2.queue()[k].1 == c);
    }
    if s2.in_queue(r, c) {
        let k = choose|k: int|
            0 <= k < s2.queue().len() && (#[trigger] s2.queue()[k]).0 == r && s2.queue()[k].1 == c;
        assert((s1.queue()[k]).0 == r && s1.queue()[k].1 == c);
    }
}

/// Extending a legal topple chain by one more legal topple keeps it legal.
pub proof fn lemma_topples_to_step(
    g1: Seq<Seq<int>>,
    g2: Seq<Seq<int>>,
    h: int,
    w: int,
    t: Seq<(int, int)>,
    p: (int, int),
)
    requires
        topples_to(g1, g2, h, w, t),
        in_grid(h, w, p.0, p.1),
        unstable(g2, p.0, p.1),
    ensures
        topples_to(g1, topple_spec(g2, h, w, p.0, p.1), h, w, t.push(p)),
    decreases t.len(),
{
    let t2 = t.push(p);
    if t.len() == 0 {
        assert(t2[0] == p);
        assert(t2.drop_first() =~= Seq::<(int, int)>::empty());
        assert(topple_spec(g1, h, w, p.0, p.1) == topple_spec(g2, h, w, p.0, p.1));
        assert(topples_to(
            topple_spec(g1, h, w, t2[0].0, t2[0].1),
            topple_spec(g2, h, w, p.0, p.1),
            h,
            w,
            t2.drop_first(),
        ));
        assert(topples_to(g1, topple_spec(g2, h, w, p.0, p.1), h, w, t2));
    } else {
        lemma_topples_to_step(topple_spec(g1, h, w, t[0].0, t[0].1), g2, h, w, t.drop_first(), p);
        assert(t2[0] == t[0]);
        assert(t2.drop_first() =~= t.drop_first().push(p));
        assert(topples_to(
            topple_spec(g1, h, w, t2[0].0, t2[0].1),
            topple_spec(g2, h, w, p.0, p.1),
            h,
            w,
            t2.drop_first(),
        ));
        assert(topples_to(g1, topple_spec(g2, h, w, p.0, p.1), h, w, t2));
    }
}

} // verus!
