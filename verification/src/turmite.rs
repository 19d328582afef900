//! Turmites: mobile agents over a shared grid of integer marks, generalized
//! Langton's ants. Each agent owns a transition table mapping the mark under
//! it to a mark to write and a turn to take.
//!
//! Within one step the agents act in order, each seeing the writes of the
//! agents before it: the update is deliberately sequential, not synchronous.

use vstd::prelude::*;

use crate::canvas::{Canvas, Color, Colorize};
use crate::random::rand_range;

verus! {

/// A change of orientation.
#[derive(Clone, Copy, PartialEq, Eq, Structural, Debug)]
pub enum Turn {
    Left,
    Right,
}

/// The orientation of a turmite.
#[derive(Clone, Copy, PartialEq, Eq, Structural, Debug)]
pub enum Dir {
    N,
    S,
    W,
    E,
}

impl Dir {
    /// The orientation after turning.
    pub open spec fn turn_spec(self, t: Turn) -> Dir {
        match self {
            Dir::N => if t == Turn::Left {
                Dir::W
            } else {
                Dir::E
            },
            Dir::S => if t == Turn::Left {
                Dir::E
            } else {
                Dir::W
            },
            Dir::E => if t == Turn::Left {
                Dir::N
            } else {
                Dir::S
            },
            Dir::W => if t == Turn::Left {
                Dir::S
            } else {
                Dir::N
            },
        }
    }

    /// Turn left or right.
    pub fn turn(self, t: Turn) -> (d: Dir)
        ensures
            d == self.turn_spec(t),
    {
        match self {
            Dir::N => if matches!(t, Turn::Left) {
                Dir::W
            } else {
                Dir::E
            },
            Dir::S => if matches!(t, Turn::Left) {
                Dir::E
            } else {
                Dir::W
            },
            Dir::E => if matches!(t, Turn::Left) {
                Dir::N
            } else {
                Dir::S
            },
            Dir::W => if matches!(t, Turn::Left) {
                Dir::S
            } else {
                Dir::N
            },
        }
    }

    /// The orientation a small integer stands for, for random generation.
    pub open spec fn from_spec(i: int) -> Dir {
        if i == 0 {
            Dir::N
        } else if i == 1 {
            Dir::E
        } else if i == 2 {
            Dir::S
        } else {
            Dir::W
        }
    }

    /// Map an integer below four to an orientation.
    pub fn from(i: usize) -> (d: Dir)
        requires
            i < 4,
        ensures
            d == Dir::from_spec(i as int),
    {
        match i {
            0 => Dir::N,
            1 => Dir::E,
            2 => Dir::S,
            _ => Dir::W,
        }
    }
}

impl Colorize for usize {
    open spec fn color_spec(&self) -> Color {
        match *self {
            0 => (0, 0, 0),
            1 => (9, 18, 2),
            2 => (17, 1, 25),
            3 => (9, 19, 25),
            4 => (25, 11, 0),
            5 => (0, 25, 10),
            6 => (25, 0, 0),
            _ => (25, 25, 25),
        }
    }

    fn color(&self) -> (c: Color) {
        match *self {
            0 => (0, 0, 0),
            1 => (9, 18, 2),
            2 => (17, 1, 25),
            3 => (9, 19, 25),
            4 => (25, 11, 0),
            5 => (0, 25, 10),
            6 => (25, 0, 0),
            _ => (25, 25, 25),
        }
    }
}

/// The position one step forward from `p` in direction `d` on an
/// `imax x jmax` torus.
pub open spec fn mv_spec(p: (int, int), d: Dir, imax: int, jmax: int) -> (int, int) {
    match d {
        Dir::N => (if p.0 == 0 {
            imax - 1
        } else {
            p.0 - 1
        }, p.1),
        Dir::S => (if p.0 == imax - 1 {
            0int
        } else {
            p.0 + 1
        }, p.1),
        Dir::W => (p.0, if p.1 == 0 {
            jmax - 1
        } else {
            p.1 - 1
        }),
        Dir::E => (p.0, if p.1 == jmax - 1 {
            0int
        } else {
            p.1 + 1
        }),
    }
}

/// Step one position forward with wrapping around the edges.
pub fn mv(p: (usize, usize), d: Dir, imax: usize, jmax: usize) -> (q: (usize, usize))
    requires
        p.0 < imax,
        p.1 < jmax,
    ensures
        q.0 == mv_spec((p.0 as int, p.1 as int), d, imax as int, jmax as int).0,
        q.1 == mv_spec((p.0 as int, p.1 as int), d, imax as int, jmax as int).1,
        q.0 < imax,
        q.1 < jmax,
{
    match d {
        Dir::N => {
            if p.0 == 0 {
                (imax - 1, p.1)
            } else {
                (p.0 - 1, p.1)
            }
        },
        Dir::S => {
            if p.0 == imax - 1 {
                (0, p.1)
            } else {
                (p.0 + 1, p.1)
            }
        },
        Dir::W => {
            if p.1 == 0 {
                (p.0, jmax - 1)
            } else {
                (p.0, p.1 - 1)
            }
        },
        Dir::E => {
            if p.1 == jmax - 1 {
                (p.0, 0)
            } else {
                (p.0, p.1 + 1)
            }
        },
    }
}

/// A single turmite: its position, orientation, and the index of the
/// transition table it follows.
#[derive(Clone, Copy, PartialEq, Eq, Debug)]
pub struct Turmite {
    pub pos: (usize, usize),
    pub dir: Dir,
    pub rules: usize,
}

impl Turmite {
    /// Change orientation.
    pub fn turn(&mut self, t: Turn)
        ensures
            final(self).dir == old(self).dir.turn_spec(t),
            final(self).pos == old(self).pos,
            final(self).rules == old(self).rules,
    {
        self.dir = self.dir.turn(t);
    }

    /// Step one position forward with wrapping around the edges.
    pub fn mv(&mut self, imax: usize, jmax: usize)
        requires
            old(self).pos.0 < imax,
            old(self).pos.1 < jmax,
        ensures
            final(self).pos.0 == mv_spec(
                (old(self).pos.0 as int, old(self).pos.1 as int),
                old(self).dir,
                imax as int,
                jmax as int,
            ).0,
            final(self).pos.1 == mv_spec(
                (old(self).pos.0 as int, old(self).pos.1 as int),
                old(self).dir,
                imax as int,
                jmax as int,
            ).1,
            final(self).pos.0 < imax,
            final(self).pos.1 < jmax,
            final(self).dir == old(self).dir,
            final(self).rules == old(self).rules,
    {
        self.pos = mv(self.pos, self.dir, imax, jmax);
    }
}

/// The transition tables as sequences.
pub open spec fn view_tables(m: Seq<Vec<(usize, Turn)>>) -> Seq<Seq<(usize, Turn)>> {
    Seq::new(m.len(), |k: int| m[k]@)
}

/// Well-formed, closed transition tables: at least one table, all of one
/// positive length, and every mark they write indexes back into them.
pub open spec fn tables_wf(tabs: Seq<Seq<(usize, Turn)>>) -> bool {
    &&& tabs.len() > 0
    &&& tabs[0].len() > 0
    &&& forall|k: int| 0 <= k < tabs.len() ==> (#[trigger] tabs[k]).len() == tabs[0].len()
    &&& forall|k: int, m: int|
        0 <= k < tabs.len() && 0 <= m < tabs[0].len() ==> (#[trigger] tabs[k][m]).0
            < tabs[0].len()
}

/// One turmite acting: read the mark under it, turn as its table says,
/// write the new mark, then step forward in the new direction.
pub open spec fn ant_step(
    marks: Seq<Seq<usize>>,
    a: Turmite,
    tabs: Seq<Seq<(usize, Turn)>>,
    h: int,
    w: int,
) -> (Seq<Seq<usize>>, Turmite) {
    let mark = marks[a.pos.0 as int][a.pos.1 as int];
    let entry = tabs[a.rules as int][mark as int];
    let nd = a.dir.turn_spec(entry.1);
    let nm = marks.update(
        a.pos.0 as int,
        marks[a.pos.0 as int].update(a.pos.1 as int, entry.0),
    );
    let np = mv_spec((a.pos.0 as int, a.pos.1 as int), nd, h, w);
    (nm, Turmite { pos: (np.0 as usize, np.1 as usize), dir: nd, rules: a.rules })
}

/// The first `k` turmites acting in order, each against the grid as the
/// ones before it left it.
pub open spec fn ants_step(
    marks: Seq<Seq<usize>>,
    ants: Seq<Turmite>,
    k: int,
    tabs: Seq<Seq<(usize, Turn)>>,
    h: int,
    w: int,
) -> (Seq<Seq<usize>>, Seq<Turmite>)
    decreases k,
{
    if k <= 0 {
        (marks, ants)
    } else {
        let prev = ants_step(marks, ants, k - 1, tabs, h, w);
        let stepped = ant_step(prev.0, prev.1[k - 1], tabs, h, w);
        (stepped.0, prev.1.update(k - 1, stepped.1))
    }
}

/// `n` whole steps of all the turmites.
pub open spec fn multi_step(
    marks: Seq<Seq<usize>>,
    ants: Seq<Turmite>,
    n: int,
    tabs: Seq<Seq<(usize, Turn)>>,
    h: int,
    w: int,
) -> (Seq<Seq<usize>>, Seq<Turmite>)
    decreases n,
{
    if n <= 0 {
        (marks, ants)
    } else {
        let prev = multi_step(marks, ants, n - 1, tabs, h, w);
        ants_step(prev.0, prev.1, prev.1.len() as int, tabs, h, w)
    }
}

/// Stepping the first `k` turmites does not move the ones at or past `k`.
proof fn lemma_ants_step_untouched(
    marks: Seq<Seq<usize>>,
    ants: Seq<Turmite>,
    k: int,
    tabs: Seq<Seq<(usize, Turn)>>,
    h: int,
    w: int,
)
    requires
        0 <= k <= ants.len(),
    ensures
        ants_step(marks, ants, k, tabs, h, w).1.len() == ants.len(),
        forall|m: int|
            k <= m < ants.len() ==> ants_step(marks, ants, k, tabs, h, w).1[m] == ants[m],
    decreases k,
{
    if k > 0 {
        lemma_ants_step_untouched(marks, ants, k - 1, tabs, h, w);
    }
}

/// Appending one in-bounds turmite with a valid table index to a mound that
/// satisfies its invariant leaves the invariant intact.
proof fn lemma_push_keeps_inv(s1: Mound, s2: Mound)
    requires
        s1.inv(),
        s2.field == s1.field,
        s2.hgt == s1.hgt,
        s2.wth == s1.wth,
        s2.map == s1.map,
        s2.cnt == s1.cnt,
        s2.ants().len() == s1.ants().len() + 1,
        forall|t: int| 0 <= t < s1.ants().len() ==> #[trigger] s2.ants()[t] == s1.ants()[t],
        s2.ants().last().pos.0 < s1.height(),
        s2.ants().last().pos.1 < s1.width(),
        (s2.ants().last().rules as int) < s1.tables().len(),
    ensures
        s2.inv(),
{
    assert(s2.marks() == s1.marks());
    assert(s2.tables() == s1.tables());
    assert(s2.height() == s1.height());
    assert(s2.width() == s1.width());
    assert forall|i: int, j: int|
        0 <= i < s2.height() && 0 <= j < s2.width() implies (#[trigger] s2.marks()[i][j])
            < s2.tables()[0].len() by {
        assert(s1.marks()[i][j] < s1.tables()[0].len());
    }
    assert forall|t: int| 0 <= t < s2.ants().len() implies (#[trigger] s2.ants()[t]).pos.0
        < s2.height() && s2.ants()[t].pos.1 < s2.width() && s2.ants()[t].rules
        < s2.tables().len() by {
        if t < s1.ants().len() {
            assert(s2.ants()[t] == s1.ants()[t]);
        } else {
            assert(s2.ants()[t] == s2.ants().last());
        }
    }
}

/// A mound: the grid of marks, its turmites, their transition tables, and a
/// step counter.
pub struct Mound {
    hgt: usize,
    wth: usize,
    map: Vec<Vec<(usize, Turn)>>,
    field: Canvas<usize>,
    turmites: Vec<Turmite>,
    cnt: usize,
}

impl Mound {
    /// Number of rows.
    pub closed spec fn height(self) -> int {
        self.hgt as int
    }

    /// Number of columns.
    pub closed spec fn width(self) -> int {
        self.wth as int
    }

    /// The grid of marks.
    pub closed spec fn marks(self) -> Seq<Seq<usize>> {
        self.field.cells()
    }

    /// The transition tables.
    pub closed spec fn tables(self) -> Seq<Seq<(usize, Turn)>> {
        view_tables(self.map@)
    }

    /// The turmites, in the order they act.
    pub closed spec fn ants(self) -> Seq<Turmite> {
        self.turmites@
    }

    /// The number of whole steps taken.
    pub closed spec fn count_spec(self) -> int {
        self.cnt as int
    }

    /// The mound's invariant: the grid is well formed, the tables are
    /// closed, every mark on the grid indexes into the tables, and every
    /// turmite sits on the grid with a valid table index.
    pub closed spec fn inv(self) -> bool {
        &&& self.field.wf()
        &&& self.field.height() == self.height()
        &&& self.field.width() == self.width()
        &&& tables_wf(self.tables())
        &&& forall|i: int, j: int|
            0 <= i < self.height() && 0 <= j < self.width() ==> (#[trigger] self.marks()[i][j])
                < self.tables()[0].len()
        &&& forall|t: int|
            0 <= t < self.ants().len() ==> (#[trigger] self.ants()[t]).pos.0 < self.height()
                && self.ants()[t].pos.1 < self.width() && self.ants()[t].rules
                < self.tables().len()
    }

    /// A mound with a blank grid and no turmites.
    pub fn new(hgt: usize, wth: usize, rules: Vec<Vec<(usize, Turn)>>) -> (m: Mound)
        requires
            0 < hgt <= isize::MAX,
            0 < wth <= isize::MAX,
            tables_wf(view_tables(rules@)),
        ensures
            m.inv(),
            m.height() == hgt,
            m.width() == wth,
            m.tables() == view_tables(rules@),
            m.ants().len() == 0,
            forall|i: int, j: int|
                0 <= i < hgt && 0 <= j < wth ==> #[trigger] m.marks()[i][j] == 0,
            m.count_spec() == 0,
    {
        Mound {
            hgt,
            wth,
            map: rules,
            field: Canvas::new(hgt, wth, 0),
            turmites: Vec::new(),
            cnt: 0,
        }
    }

    /// Number of rows.
    pub fn rows(&self) -> (n: usize)
        ensures
            n == self.height(),
    {
        self.hgt
    }

    /// Number of columns.
    pub fn cols(&self) -> (n: usize)
        ensures
            n == self.width(),
    {
        self.wth
    }

    /// The mark at `(i, j)`.
    pub fn mark(&self, i: usize, j: usize) -> (m: usize)
        requires
            self.inv(),
            i < self.height(),
            j < self.width(),
        ensures
            m == self.marks()[i as int][j as int],
    {
        self.field.get(i, j)
    }

    /// How many turmites live on the mound.
    pub fn ant_count(&self) -> (n: usize)
        ensures
            n == self.ants().len(),
    {
        self.turmites.len()
    }

    /// The turmite at the given index.
    pub fn ant(&self, t: usize) -> (a: Turmite)
        requires
            t < self.ants().len(),
        ensures
            a == self.ants()[t as int],
    {
        self.turmites[t]
    }

    /// How many whole steps have been taken.
    pub fn steps(&self) -> (n: usize)
        ensures
            n == self.count_spec(),
    {
        self.cnt
    }

    /// The grid drawn as colors.
    pub closed spec fn colors(self) -> Seq<Seq<Color>> {
        self.field.colors()
    }

    /// The grid serialized as a plain-text PPM image.
    pub fn render_text(&self) -> (s: String)
        requires
            self.inv(),
        ensures
            s@ == crate::canvas::ppm_chars(self.colors(), self.height(), self.width()),
    {
        self.field.render_string()
    }

    /// Add a turmite at an explicit position, orientation and table.
    pub fn add(&mut self, pos: (usize, usize), dir: Dir, rules: usize)
        requires
            old(self).inv(),
            pos.0 < old(self).height(),
            pos.1 < old(self).width(),
            rules < old(self).tables().len(),
        ensures
            final(self).inv(),
            final(self).height() == old(self).height(),
            final(self).width() == old(self).width(),
            final(self).tables() == old(self).tables(),
            final(self).marks() == old(self).marks(),
            final(self).count_spec() == old(self).count_spec(),
            final(self).ants() == old(self).ants().push(Turmite { pos, dir, rules }),
    {
        self.turmites.push(Turmite { pos, dir, rules });
        proof {
            lemma_push_keeps_inv(*old(self), *self);
        }
    }

    /// Add a randomly placed turmite: its position is drawn from the given
    /// row and column ranges, its orientation at random, and its table
    /// either fixed or drawn at random.
    pub fn add_rand(
        &mut self,
        rows: (usize, usize),
        cols: (usize, usize),
        rules_rng: Option<usize>,
    )
        requires
            old(self).inv(),
            rows.0 < rows.1 <= old(self).height(),
            cols.0 < cols.1 <= old(self).width(),
            rules_rng matches Some(n) ==> n < old(self).tables().len(),
        ensures
            final(self).inv(),
            final(self).height() == old(self).height(),
            final(self).width() == old(self).width(),
            final(self).tables() == old(self).tables(),
            final(self).marks() == old(self).marks(),
            final(self).count_spec() == old(self).count_spec(),
            final(self).ants().len() == old(self).ants().len() + 1,
            final(self).ants() == old(self).ants().push(final(self).ants().last()),
            rows.0 <= final(self).ants().last().pos.0 < rows.1,
            cols.0 <= final(self).ants().last().pos.1 < cols.1,
            rules_rng matches Some(n) ==> final(self).ants().last().rules == n,
            final(self).ants().last().rules < old(self).tables().len(),
    {
        let i = rand_range(rows.0, rows.1);
        let j = rand_range(cols.0, cols.1);
        let d = Dir::from(rand_range(0, 4));
        let r = match rules_rng {
            Some(n) => n,
            None => rand_range(0, self.map.len()),
        };
        self.turmites.push(Turmite { pos: (i, j), dir: d, rules: r });
        proof {
            lemma_push_keeps_inv(*old(self), *self);
        }
    }

    /// One step: every turmite acts once, in order, each seeing the writes
    /// of the turmites before it.
    #[verifier::loop_isolation(false)]
    pub fn next(&mut self)
        requires
            old(self).inv(),
        ensures
            final(self).inv(),
            final(self).height() == old(self).height(),
            final(self).width() == old(self).width(),
            final(self).tables() == old(self).tables(),
            final(self).marks() == ants_step(
                old(self).marks(),
                old(self).ants(),
                old(self).ants().len() as int,
                old(self).tables(),
                old(self).height(),
                old(self).width(),
            ).0,
            final(self).ants() == ants_step(
                old(self).marks(),
                old(self).ants(),
                old(self).ants().len() as int,
                old(self).tables(),
                old(self).height(),
                old(self).width(),
            ).1,
            final(self).count_spec() == if old(self).count_spec() < usize::MAX {
                old(self).count_spec() + 1
            } else {
                old(self).count_spec()
            },
    {
        let ghost m0 = self.marks();
        let ghost a0 = self.ants();
        let ghost tabs = self.tables();
        let ghost h = self.height();
        let ghost w = self.width();
        let n = self.turmites.len();
        let mut t: usize = 0;
        while t < n
            invariant
                self.inv(),
                self.height() == h,
                self.width() == w,
                self.tables() == tabs,
                self.count_spec() == old(self).count_spec(),
                t <= n,
                n == a0.len(),
                self.marks() == ants_step(m0, a0, t as int, tabs, h, w).0,
                self.ants() == ants_step(m0, a0, t as int, tabs, h, w).1,
            decreases n - t,
        {
            proof {
                lemma_ants_step_untouched(m0, a0, t as int, tabs, h, w);
            }
            let ant = self.turmites[t];
            let mark = self.field.get(ant.pos.0, ant.pos.1);
            proof {
                assert(ant == self.ants()[t as int]);
                assert(ant.rules < self.tables().len());
                assert(self.tables()[ant.rules as int] == self.map@[ant.rules as int]@);
                assert(mark < self.tables()[0].len());
                assert(self.tables()[ant.rules as int].len() == self.tables()[0].len());
            }
            let entry = self.map[ant.rules][mark];
            let mut a2 = ant;
            a2.turn(entry.1);
            self.field.set(ant.pos.0, ant.pos.1, entry.0);
            a2.mv(self.hgt, self.wth);
            self.turmites[t] = a2;
            proof {
                let prev = ants_step(m0, a0, t as int, tabs, h, w);
                let stepped = ant_step(prev.0, prev.1[t as int], tabs, h, w);
                assert(self.marks() =~~= stepped.0);
                assert(self.ants() =~= prev.1.update(t as int, stepped.1));
                assert(self.marks() == ants_step(m0, a0, t + 1, tabs, h, w).0);
                assert(self.ants() == ants_step(m0, a0, t + 1, tabs, h, w).1);
            }
            t += 1;
        }
        if self.cnt < usize::MAX {
            self.cnt = self.cnt + 1;
        }
        proof {
            assert(self.marks() == ants_step(m0, a0, a0.len() as int, tabs, h, w).0);
            assert(self.ants() == ants_step(m0, a0, a0.len() as int, tabs, h, w).1);
        }
    }

    /// Run `n` whole steps.
    #[verifier::loop_isolation(false)]
    pub fn multi(&mut self, n: usize)
        requires
            old(self).inv(),
        ensures
            final(self).inv(),
            final(self).height() == old(self).height(),
            final(self).width() == old(self).width(),
            final(self).tables() == old(self).tables(),
            final(self).marks() == multi_step(
                old(self).marks(),
                old(self).ants(),
                n as int,
                old(self).tables(),
                old(self).height(),
                old(self).width(),
            ).0,
            final(self).ants() == multi_step(
                old(self).marks(),
                old(self).ants(),
                n as int,
                old(self).tables(),
                old(self).height(),
                old(self).width(),
            ).1,
    {
        let ghost m0 = self.marks();
        let ghost a0 = self.ants();
        let ghost tabs = self.tables();
        let ghost h = self.height();
        let ghost w = self.width();
        let mut k: usize = 0;
        while k < n
            invariant
                self.inv(),
                self.height() == h,
                self.width() == w,
                self.tables() == tabs,
                k <= n,
                self.marks() == multi_step(m0, a0, k as int, tabs, h, w).0,
                self.ants() == multi_step(m0, a0, k as int, tabs, h, w).1,
            decreases n - k,
        {
            self.next();
            k += 1;
        }
    }
}

/// The two-table, two-mark rule set: the classic Langton rule and its
/// mirror image.
pub fn rules_2() -> (v: Vec<Vec<(usize, Turn)>>)
    ensures
        tables_wf(view_tables(v@)),
        view_tables(v@).len() == 2,
        view_tables(v@)[0] =~= seq![(1usize, Turn::Left), (0usize, Turn::Right)],
        view_tables(v@)[1] =~= seq![(1usize, Turn::Right), (0usize, Turn::Left)],
{
    let mut t0: Vec<(usize, Turn)> = Vec::new();
    t0.push((1, Turn::Left));
    t0.push((0, Turn::Right));
    let mut t1: Vec<(usize, Turn)> = Vec::new();
    t1.push((1, Turn::Right));
    t1.push((0, Turn::Left));
    let mut v: Vec<Vec<(usize, Turn)>> = Vec::new();
    v.push(t0);
    v.push(t1);
    proof {
        assert(view_tables(v@)[0] =~= seq![(1usize, Turn::Left), (0usize, Turn::Right)]);
        assert(view_tables(v@)[1] =~= seq![(1usize, Turn::Right), (0usize, Turn::Left)]);
    }
    v
}

/// The two-table, four-mark rule set.
pub fn rules_4() -> (v: Vec<Vec<(usize, Turn)>>)
    ensures
        tables_wf(view_tables(v@)),
        view_tables(v@).len() == 2,
        view_tables(v@)[0] =~= seq![
            (1usize, Turn::Left),
            (2usize, Turn::Right),
            (3usize, Turn::Right),
            (0usize, Turn::Left),
        ],
        view_tables(v@)[1] =~= seq![
            (1usize, Turn::Right),
            (2usize, Turn::Left),
            (3usize, Turn::Left),
            (0usize, Turn::Right),
        ],
{
    let mut t0: Vec<(usize, Turn)> = Vec::new();
    t0.push((1, Turn::Left));
    t0.push((2, Turn::Right));
    t0.push((3, Turn::Right));
    t0.push((0, Turn::Left));
    let mut t1: Vec<(usize, Turn)> = Vec::new();
    t1.push((1, Turn::Right));
    t1.push((2, Turn::Left));
    t1.push((3, Turn::Left));
    t1.push((0, Turn::Right));
    let mut v: Vec<Vec<(usize, Turn)>> = Vec::new();
    v.push(t0);
    v.push(t1);
    proof {
        assert(view_tables(v@)[0] =~= seq![
            (1usize, Turn::Left),
            (2usize, Turn::Right),
            (3usize, Turn::Right),
            (0usize, Turn::Left),
        ]);
        assert(view_tables(v@)[1] =~= seq![
            (1usize, Turn::Right),
            (2usize, Turn::Left),
            (3usize, Turn::Left),
            (0usize, Turn::Right),
        ]);
    }
    v
}

} // verus!
