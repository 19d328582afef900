//! Langton's ant: agents over a grid of binary trail marks, driven by the
//! single classic transition table. On a blank cell an ant turns left,
//! marks it and moves on; on a marked cell it turns right and clears it.
//!
//! Within one step the ants act in order, each seeing the writes of the
//! ants before it, just as the turmites do.

use vstd::prelude::*;

use crate::canvas::{Canvas, Color, Colorize};
use crate::random::rand_range;
use crate::turmite::Turn;

verus! {

/// The orientation of an ant.
#[derive(Clone, Copy, PartialEq, Eq, Structural, Debug)]
pub enum Dir {
    N,
    S,
    W,
    E,
}

impl Dir {
    /// The orientation after turning.
    pub open spec fn turn_spec(self, t: Turn) -> Dir {
        match self {
            Dir::N => if t == Turn::Left {
                Dir::W
            } else {
                Dir::E
            },
            Dir::S => if t == Turn::Left {
                Dir::E
            } else {
                Dir::W
            },
            Dir::E => if t == Turn::Left {
                Dir::N
            } else {
                Dir::S
            },
            Dir::W => if t == Turn::Left {
                Dir::S
            } else {
                Dir::N
            },
        }
    }

    /// Turn left or right.
    pub fn turn(self, t: Turn) -> (d: Dir)
        ensures
            d == self.turn_spec(t),
    {
        match self {
            Dir::N => if matches!(t, Turn::Left) {
                Dir::W
            } else {
                Dir::E
            },
            Dir::S => if matches!(t, Turn::Left) {
                Dir::E
            } else {
                Dir::W
            },
            Dir::E => if matches!(t, Turn::Left) {
                Dir::N
            } else {
                Dir::S
            },
            Dir::W => if matches!(t, Turn::Left) {
                Dir::S
            } else {
                Dir::N
            },
        }
    }

    /// The orientation a small integer stands for, for random generation.
    pub open spec fn from_spec(i: int) -> Dir {
        if i == 0 {
            Dir::N
        } else if i == 1 {
            Dir::E
        } else if i == 2 {
            Dir::S
        } else {
            Dir::W
        }
    }

    /// Map an integer below four to an orientation.
    pub fn from(i: usize) -> (d: Dir)
        requires
            i < 4,
        ensures
            d == Dir::from_spec(i as int),
    {
        match i {
            0 => Dir::N,
            1 => Dir::E,
            2 => Dir::S,
            _ => Dir::W,
        }
    }
}

impl Colorize for u8 {
    open spec fn color_spec(&self) -> Color {
        match *self {
            0 => (0, 0, 0),
            1 => (25, 25, 25),
            _ => (10, 10, 10),
        }
    }

    fn color(&self) -> (c: Color) {
        match *self {
            0 => (0, 0, 0),
            1 => (25, 25, 25),
            _ => (10, 10, 10),
        }
    }
}

/// The position one step forward from `p` in direction `d` on an
/// `imax x jmax` torus.
pub open spec fn mv_spec(p: (int, int), d: Dir, imax: int, jmax: int) -> (int, int) {
    match d {
        Dir::N => (if p.0 == 0 {
            imax - 1
        } else {
            p.0 - 1
        }, p.1),
        Dir::S => (if p.0 == imax - 1 {
            0int
        } else {
            p.0 + 1
        }, p.1),
        Dir::W => (p.0, if p.1 == 0 {
            jmax - 1
        } else {
            p.1 - 1
        }),
        Dir::E => (p.0, if p.1 == jmax - 1 {
            0int
        } else {
            p.1 + 1
        }),
    }
}

/// Step one position forward with wrapping around the edges.
pub fn mv(p: (usize, usize), d: Dir, imax: usize, jmax: usize) -> (q: (usize, usize))
    requires
        p.0 < imax,
        p.1 < jmax,
    ensures
        q.0 == mv_spec((p.0 as int, p.1 as int), d, imax as int, jmax as int).0,
        q.1 == mv_spec((p.0 as int, p.1 as int), d, imax as int, jmax as int).1,
        q.0 < imax,
        q.1 < jmax,
{
    match d {
        Dir::N => {
            if p.0 == 0 {
                (imax - 1, p.1)
            } else {
                (p.0 - 1, p.1)
            }
        },
        Dir::S => {
            if p.0 == imax - 1 {
                (0, p.1)
            } else {
                (p.0 + 1, p.1)
            }
        },
        Dir::W => {
            if p.1 == 0 {
                (p.0, jmax - 1)
            } else {
                (p.0, p.1 - 1)
            }
        },
        Dir::E => {
            if p.1 == jmax - 1 {
                (p.0, 0)
            } else {
                (p.0, p.1 + 1)
            }
        },
    }
}

/// A single ant: its position and orientation.
#[derive(Clone, Copy, PartialEq, Eq, Debug)]
pub struct Ant {
    pub pos: (usize, usize),
    pub dir: Dir,
}

impl Ant {
    /// Change orientation.
    pub fn turn(&mut self, t: Turn)
        ensures
            final(self).dir == old(self).dir.turn_spec(t),
            final(self).pos == old(self).pos,
    {
        self.dir = self.dir.turn(t);
    }

    /// Step one position forward with wrapping around the edges.
    pub fn mv(&mut self, imax: usize, jmax: usize)
        requires
            old(self).pos.0 < imax,
            old(self).pos.1 < jmax,
        ensures
            final(self).pos.0 == mv_spec(
                (old(self).pos.0 as int, old(self).pos.1 as int),
                old(self).dir,
                imax as int,
                jmax as int,
            ).0,
            final(self).pos.1 == mv_spec(
                (old(self).pos.0 as int, old(self).pos.1 as int),
                old(self).dir,
                imax as int,
                jmax as int,
            ).1,
            final(self).pos.0 < imax,
            final(self).pos.1 < jmax,
            final(self).dir == old(self).dir,
    {
        self.pos = mv(self.pos, self.dir, imax, jmax);
    }
}

/// One ant acting: read the mark under it, turn as the table says, write
/// the new mark, then step forward in the new direction.
pub open spec fn ant_step(
    marks: Seq<Seq<u8>>,
    a: Ant,
    map: Seq<(u8, Turn)>,
    h: int,
    w: int,
) -> (Seq<Seq<u8>>, Ant) {
    let mark = marks[a.pos.0 as int][a.pos.1 as int];
    let entry = map[mark as int];
    let nd = a.dir.turn_spec(entry.1);
    let nm = marks.update(
        a.pos.0 as int,
        marks[a.pos.0 as int].update(a.pos.1 as int, entry.0),
    );
    let np = mv_spec((a.pos.0 as int, a.pos.1 as int), nd, h, w);
    (nm, Ant { pos: (np.0 as usize, np.1 as usize), dir: nd })
}

/// The first `k` ants acting in order, each against the grid as the ones
/// before it left it.
pub open spec fn ants_step(
    marks: Seq<Seq<u8>>,
    ants: Seq<Ant>,
    k: int,
    map: Seq<(u8, Turn)>,
    h: int,
    w: int,
) -> (Seq<Seq<u8>>, Seq<Ant>)
    decreases k,
{
    if k <= 0 {
        (marks, ants)
    } else {
        let prev = ants_step(marks, ants, k - 1, map, h, w);
        let stepped = ant_step(prev.0, prev.1[k - 1], map, h, w);
        (stepped.0, prev.1.update(k - 1, stepped.1))
    }
}

/// `n` whole steps of all the ants.
pub open spec fn multi_step(
    marks: Seq<Seq<u8>>,
    ants: Seq<Ant>,
    n: int,
    map: Seq<(u8, Turn)>,
    h: int,
    w: int,
) -> (Seq<Seq<u8>>, Seq<Ant>)
    decreases n,
{
    if n <= 0 {
        (marks, ants)
    } else {
        let prev = multi_step(marks, ants, n - 1, map, h, w);
        ants_step(prev.0, prev.1, prev.1.len() as int, map, h, w)
    }
}

/// Stepping the first `k` ants does not move the ones at or past `k`.
proof fn lemma_ants_step_untouched(
    marks: Seq<Seq<u8>>,
    ants: Seq<Ant>,
    k: int,
    map: Seq<(u8, Turn)>,
    h: int,
    w: int,
)
    requires
        0 <= k <= ants.len(),
    ensures
        ants_step(marks, ants, k, map, h, w).1.len() == ants.len(),
        forall|m: int| k <= m < ants.len() ==> ants_step(marks, ants, k, map, h, w).1[m] == ants[m],
    decreases k,
{
    if k > 0 {
        lemma_ants_step_untouched(marks, ants, k - 1, map, h, w);
    }
}

/// The classic Langton's ant colony: the grid of trail marks, the ants, the
/// fixed transition table, and a step counter.
pub struct Langton {
    hgt: usize,
    wth: usize,
    map: Vec<(u8, Turn)>,
    field: Canvas<u8>,
    ants: Vec<Ant>,
    cnt: usize,
}

impl Langton {
    /// Number of rows.
    pub closed spec fn height(self) -> int {
        self.hgt as int
    }

    /// Number of columns.
    pub closed spec fn width(self) -> int {
        self.wth as int
    }

    /// The grid of marks.
    pub closed spec fn marks(self) -> Seq<Seq<u8>> {
        self.field.cells()
    }

    /// The transition table.
    pub closed spec fn table(self) -> Seq<(u8, Turn)> {
        self.map@
    }

    /// The ants, in the order they act.
    pub closed spec fn ants(self) -> Seq<Ant> {
        self.ants@
    }

    /// The number of whole steps taken.
    pub closed spec fn count_spec(self) -> int {
        self.cnt as int
    }

    /// The colony's invariant: the grid is well formed, the table is the
    /// classic one, every mark on the grid indexes into it, and every ant
    /// sits on the grid.
    pub closed spec fn inv(self) -> bool {
        &&& self.field.wf()
        &&& self.field.height() == self.height()
        &&& self.field.width() == self.width()
        &&& self.table() =~= seq![(1u8, Turn::Left), (0u8, Turn::Right)]
        &&& forall|i: int, j: int|
            0 <= i < self.height() && 0 <= j < self.width() ==> (#[trigger] self.marks()[i][j]) < 2
        &&& forall|t: int|
            0 <= t < self.ants().len() ==> (#[trigger] self.ants()[t]).pos.0 < self.height()
                && self.ants()[t].pos.1 < self.width()
    }

    /// A blank colony with no ants, under the classic table: a blank cell
    /// gets a mark and a left turn, a marked cell is cleared with a right
    /// turn.
    pub fn new(hgt: usize, wth: usize) -> (l: Langton)
        requires
            0 < hgt <= isize::MAX,
            0 < wth <= isize::MAX,
        ensures
            l.inv(),
            l.height() == hgt,
            l.width() == wth,
            l.ants().len() == 0,
            forall|i: int, j: int|
                0 <= i < hgt && 0 <= j < wth ==> #[trigger] l.marks()[i][j] == 0,
            l.count_spec() == 0,
    {
        let mut map: Vec<(u8, Turn)> = Vec::new();
        map.push((1, Turn::Left));
        map.push((0, Turn::Right));
        let l = Langton {
            hgt,
            wth,
            map,
            field: Canvas::new(hgt, wth, 0),
            ants: Vec::new(),
            cnt: 0,
        };
        proof {
            assert(l.table() =~= seq![(1u8, Turn::Left), (0u8, Turn::Right)]);
        }
        l
    }

    /// Number of rows.
    pub fn rows(&self) -> (n: usize)
        ensures
            n == self.height(),
    {
        self.hgt
    }

    /// Number of columns.
    pub fn cols(&self) -> (n: usize)
        ensures
            n == self.width(),
    {
        self.wth
    }

    /// The mark at `(i, j)`.
    pub fn mark(&self, i: usize, j: usize) -> (m: u8)
        requires
            self.inv(),
            i < self.height(),
            j < self.width(),
        ensures
            m == self.marks()[i as int][j as int],
    {
        self.field.get(i, j)
    }

    /// How many ants live on the grid.
    pub fn ant_count(&self) -> (n: usize)
        ensures
            n == self.ants().len(),
    {
        self.ants.len()
    }

    /// The ant at the given index.
    pub fn ant(&self, t: usize) -> (a: Ant)
        requires
            t < self.ants().len(),
        ensures
            a == self.ants()[t as int],
    {
        self.ants[t]
    }

    /// How many whole steps have been taken.
    pub fn steps(&self) -> (n: usize)
        ensures
            n == self.count_spec(),
    {
        self.cnt
    }

    /// The grid drawn as colors.
    pub closed spec fn colors(self) -> Seq<Seq<Color>> {
        self.field.colors()
    }

    /// The grid serialized as a plain-text PPM image.
    pub fn render_text(&self) -> (s: String)
        requires
            self.inv(),
        ensures
            s@ == crate::canvas::ppm_chars(self.colors(), self.height(), self.width()),
    {
        self.field.render_string()
    }

    /// Add an ant at an explicit position and orientation.
    pub fn add_ant(&mut self, pos: (usize, usize), dir: Dir)
        requires
            old(self).inv(),
            pos.0 < old(self).height(),
            pos.1 < old(self).width(),
        ensures
            final(self).inv(),
            final(self).height() == old(self).height(),
            final(self).width() == old(self).width(),
            final(self).marks() == old(self).marks(),
            final(self).count_spec() == old(self).count_spec(),
            final(self).ants() == old(self).ants().push(Ant { pos, dir }),
    {
        self.ants.push(Ant { pos, dir });
        proof {
            lemma_push_keeps_inv(*old(self), *self);
        }
    }

    /// Add an ant at a random position with a random orientation.
    pub fn add_rand_ant(&mut self)
        requires
            old(self).inv(),
        ensures
            final(self).inv(),
            final(self).height() == old(self).height(),
            final(self).width() == old(self).width(),
            final(self).marks() == old(self).marks(),
            final(self).count_spec() == old(self).count_spec(),
            final(self).ants().len() == old(self).ants().len() + 1,
            final(self).ants() == old(self).ants().push(final(self).ants().last()),
            final(self).ants().last().pos.0 < old(self).height(),
            final(self).ants().last().pos.1 < old(self).width(),
    {
        let i = rand_range(0, self.hgt);
        let j = rand_range(0, self.wth);
        let d = Dir::from(rand_range(0, 4));
        self.ants.push(Ant { pos: (i, j), dir: d });
        proof {
            lemma_push_keeps_inv(*old(self), *self);
        }
    }

    /// One step: every ant acts once, in order, each seeing the writes of
    /// the ants before it.
    #[verifier::loop_isolation(false)]
    pub fn next(&mut self)
        requires
            old(self).inv(),
        ensures
            final(self).inv(),
            final(self).height() == old(self).height(),
            final(self).width() == old(self).width(),
            final(self).table() == old(self).table(),
            final(self).marks() == ants_step(
                old(self).marks(),
                old(self).ants(),
                old(self).ants().len() as int,
                old(self).table(),
                old(self).height(),
                old(self).width(),
            ).0,
            final(self).ants() == ants_step(
                old(self).marks(),
                old(self).ants(),
                old(self).ants().len() as int,
                old(self).table(),
                old(self).height(),
                old(self).width(),
            ).1,
            final(self).count_spec() == if old(self).count_spec() < usize::MAX {
                old(self).count_spec() + 1
            } else {
                old(self).count_spec()
            },
    {
        let ghost m0 = self.marks();
        let ghost a0 = self.ants();
        let ghost tab = self.table();
        let ghost h = self.height();
        let ghost w = self.width();
        let n = self.ants.len();
        let mut t: usize = 0;
        while t < n
            invariant
                self.inv(),
                self.height() == h,
                self.width() == w,
                self.table() == tab,
                self.count_spec() == old(self).count_spec(),
                t <= n,
                n == a0.len(),
                self.marks() == ants_step(m0, a0, t as int, tab, h, w).0,
                self.ants() == ants_step(m0, a0, t as int, tab, h, w).1,
            decreases n - t,
        {
            proof {
                lemma_ants_step_untouched(m0, a0, t as int, tab, h, w);
            }
            let ant = self.ants[t];
            let mark = self.field.get(ant.pos.0, ant.pos.1);
            proof {
                assert(ant == self.ants()[t as int]);
                assert(mark < 2);
            }
            let entry = self.map[mark as usize];
            let mut a2 = ant;
            a2.turn(entry.1);
            self.field.set(ant.pos.0, ant.pos.1, entry.0);
            a2.mv(self.hgt, self.wth);
            self.ants[t] = a2;
            proof {
                let prev = ants_step(m0, a0, t as int, tab, h, w);
                let stepped = ant_step(prev.0, prev.1[t as int], tab, h, w);
                assert(self.marks() =~~= stepped.0);
                assert(self.ants() =~= prev.1.update(t as int, stepped.1));
                assert(self.marks() == ants_step(m0, a0, t + 1, tab, h, w).0);
                assert(self.ants() == ants_step(m0, a0, t + 1, tab, h, w).1);
            }
            t += 1;
        }
        if self.cnt < usize::MAX {
            self.cnt = self.cnt + 1;
        }
        proof {
            assert(self.marks() == ants_step(m0, a0, a0.len() as int, tab, h, w).0);
            assert(self.ants() == ants_step(m0, a0, a0.len() as int, tab, h, w).1);
        }
    }

    /// Run `n` whole steps.
    #[verifier::loop_isolation(false)]
    pub fn multi(&mut self, n: usize)
        requires
            old(self).inv(),
        ensures
            final(self).inv(),
            final(self).height() == old(self).height(),
            final(self).width() == old(self).width(),
            final(self).table() == old(self).table(),
            final(self).marks() == multi_step(
                old(self).marks(),
                old(self).ants(),
                n as int,
                old(self).table(),
                old(self).height(),
                old(self).width(),
            ).0,
            final(self).ants() == multi_step(
                old(self).marks(),
                old(self).ants(),
                n as int,
                old(self).table(),
                old(self).height(),
                old(self).width(),
            ).1,
    {
        let ghost m0 = self.marks();
        let ghost a0 = self.ants();
        let ghost tab = self.table();
        let ghost h = self.height();
        let ghost w = self.width();
        let mut k: usize = 0;
        while k < n
            invariant
                self.inv(),
                self.height() == h,
                self.width() == w,
                self.table() == tab,
                k <= n,
                self.marks() == multi_step(m0, a0, k as int, tab, h, w).0,
                self.ants() == multi_step(m0, a0, k as int, tab, h, w).1,
            decreases n - k,
        {
            self.next();
            k += 1;
        }
    }
}

/// Appending one in-bounds ant to a colony that satisfies its invariant
/// leaves the invariant intact.
proof fn lemma_push_keeps_inv(s1: Langton, s2: Langton)
    requires
        s1.inv(),
        s2.field == s1.field,
        s2.hgt == s1.hgt,
        s2.wth == s1.wth,
        s2.map == s1.map,
        s2.cnt == s1.cnt,
        s2.ants().len() == s1.ants().len() + 1,
        forall|t: int| 0 <= t < s1.ants().len() ==> #[trigger] s2.ants()[t] == s1.ants()[t],
        s2.ants().last().pos.0 < s1.height(),
        s2.ants().last().pos.1 < s1.width(),
    ensures
        s2.inv(),
{
    assert(s2.marks() == s1.marks());
    assert(s2.table() == s1.table());
    assert(s2.height() == s1.height());
    assert(s2.width() == s1.width());
    assert forall|i: int, j: int|
        0 <= i < s2.height() && 0 <= j < s2.width() implies (#[trigger] s2.marks()[i][j]) < 2 by {
        assert(s1.marks()[i][j] < 2);
    }
    assert forall|t: int| 0 <= t < s2.ants().len() implies (#[trigger] s2.ants()[t]).pos.0
        < s2.height() && s2.ants()[t].pos.1 < s2.width() by {
        if t < s1.ants().len() {
            assert(s2.ants()[t] == s1.ants()[t]);
        } else {
            assert(s2.ants()[t] == s2.ants().last());
        }
    }
}

} // verus!
