//! A generic dense 2D grid with toroidal (wrap-around) indexing, the base for
//! every automaton in this crate, together with the index-wrapping arithmetic.

use vstd::prelude::*;
use vstd::string::StrSliceExecFns;
use vstd::string::StringExecFns;

verus! {

/// The character for one decimal digit.
pub open spec fn digit_char(d: int) -> char {
    if d == 0 {
        '0'
    } else if d == 1 {
        '1'
    } else if d == 2 {
        '2'
    } else if d == 3 {
        '3'
    } else if d == 4 {
        '4'
    } else if d == 5 {
        '5'
    } else if d == 6 {
        '6'
    } else if d == 7 {
        '7'
    } else if d == 8 {
        '8'
    } else {
        '9'
    }
}

/// The decimal numeral of `n`, most significant digit first.
pub open spec fn dec_chars(n: nat) -> Seq<char>
    decreases n,
{
    if n < 10 {
        seq![digit_char(n as int)]
    } else {
        dec_chars(n / 10) + seq![digit_char((n % 10) as int)]
    }
}

/// `k` zero characters.
pub open spec fn zero_chars(k: int) -> Seq<char>
    decreases k,
{
    if k <= 0 {
        Seq::empty()
    } else {
        zero_chars(k - 1).push('0')
    }
}

/// The literal for one decimal digit.
fn digit_str(d: usize) -> (s: &'static str)
    requires
        d < 10,
    ensures
        s@ =~= seq![digit_char(d as int)],
{
    match d {
        0 => {
            proof {
                reveal_strlit("0");
            }
            "0"
        },
        1 => {
            proof {
                reveal_strlit("1");
            }
            "1"
        },
        2 => {
            proof {
                reveal_strlit("2");
            }
            "2"
        },
        3 => {
            proof {
                reveal_strlit("3");
            }
            "3"
        },
        4 => {
            proof {
                reveal_strlit("4");
            }
            "4"
        },
        5 => {
            proof {
                reveal_strlit("5");
            }
            "5"
        },
        6 => {
            proof {
                reveal_strlit("6");
            }
            "6"
        },
        7 => {
            proof {
                reveal_strlit("7");
            }
            "7"
        },
        8 => {
            proof {
                reveal_strlit("8");
            }
            "8"
        },
        _ => {
            proof {
                reveal_strlit("9");
            }
            "9"
        },
    }
}

/// Append the decimal numeral of `n`.
pub fn push_dec(out: &mut String, n: usize)
    ensures
        final(out)@ == old(out)@ + dec_chars(n as nat),
    decreases n,
{
    if n < 10 {
        out.append(digit_str(n));
        proof {
            assert(out@ =~= old(out)@ + dec_chars(n as nat));
        }
    } else {
        push_dec(out, n / 10);
        out.append(digit_str(n % 10));
        proof {
            assert(out@ =~= old(out)@ + dec_chars(n as nat));
        }
    }
}

/// An RGB color; each component lies in the range [0, 25].
pub type Color = (u8, u8, u8);

/// A cell value that can be drawn as a color.
pub trait Colorize: Sized + Copy {
    /// The color this value is drawn as.
    spec fn color_spec(&self) -> Color;

    /// Executable counterpart of [`Colorize::color_spec`]; every component of
    /// the result stays within the channel range of the image format.
    fn color(&self) -> (c: Color)
        ensures
            c == self.color_spec(),
            c.0 <= 25,
            c.1 <= 25,
            c.2 <= 25,
    ;
}

/// `k` reduced to the range `[0, n)` by true mathematical modulo (the spec
/// `%` is Euclidean, so this is total and non-negative for `n > 0`).
pub open spec fn wrap(k: int, n: int) -> int {
    k % n
}

/// Wrap a possibly negative offset `i` to the range `[0, n)`.
///
/// Unlike the truncating remainder of machine integers, this maps `-1` to
/// `n - 1`.
pub fn mod_idx(i: isize, n: usize) -> (r: usize)
    requires
        0 < n <= isize::MAX,
    ensures
        r == wrap(i as int, n as int),
{
    let m = n as isize;
    proof {
        vstd::arithmetic::div_mod::lemma_mod_bound(i as int, m as int);
    }
    match i.checked_rem_euclid(m) {
        Some(r) => r as usize,
        None => {
            proof {
                assert(false);
            }
            0
        },
    }
}

/// Wrapping is periodic in the dimension, lands in `[0, n)`, and sends `-1`
/// to the last index.
pub proof fn lemma_wrap_properties(k: int, n: int)
    requires
        0 < n,
    ensures
        wrap(k, n) == wrap(k + n, n),
        0 <= wrap(k, n) < n,
        wrap(-1, n) == n - 1,
{
    vstd::arithmetic::div_mod::lemma_mod_bound(k, n);
    vstd::arithmetic::div_mod::lemma_mod_add_multiples_vanish(k, n);
    vstd::arithmetic::div_mod::lemma_mod_add_multiples_vanish(-1, n);
    vstd::arithmetic::div_mod::lemma_small_mod((n - 1) as nat, n as nat);
}

/// Moving one step (or staying put) from an in-bounds index wraps exactly at
/// the edges.
pub proof fn lemma_wrap_step(i: int, d: int, n: int)
    requires
        0 < n,
        0 <= i < n,
        -1 <= d <= 1,
    ensures
        wrap(i + d, n) == if i + d < 0 {
            n - 1
        } else if i + d >= n {
            0
        } else {
            i + d
        },
{
    if i + d < 0 {
        lemma_wrap_properties(0, n);
    } else if i + d >= n {
        vstd::arithmetic::div_mod::lemma_mod_self_0(n);
    } else {
        vstd::arithmetic::div_mod::lemma_small_mod((i + d) as nat, n as nat);
    }
}

/// `1` if the flag is set, else `0`.
pub open spec fn ind(b: bool) -> int {
    if b {
        1
    } else {
        0
    }
}

/// The flag grid `g` read at position `(i, j)` with both coordinates
/// wrapped into the grid's `h x w` bounds.
pub open spec fn at_wrapped(g: Seq<Seq<bool>>, h: int, w: int, i: int, j: int) -> bool {
    g[wrap(i, h)][wrap(j, w)]
}

/// Number of set flags among the eight Moore neighbors of `(i, j)`, read
/// with toroidal wrapping.
pub open spec fn moore_count(g: Seq<Seq<bool>>, h: int, w: int, i: int, j: int) -> int {
    ind(at_wrapped(g, h, w, i - 1, j - 1)) + ind(at_wrapped(g, h, w, i - 1, j)) + ind(
        at_wrapped(g, h, w, i - 1, j + 1),
    ) + ind(at_wrapped(g, h, w, i, j - 1)) + ind(at_wrapped(g, h, w, i, j + 1)) + ind(
        at_wrapped(g, h, w, i + 1, j - 1),
    ) + ind(at_wrapped(g, h, w, i + 1, j)) + ind(at_wrapped(g, h, w, i + 1, j + 1))
}

/// Flag grids that agree on every in-bounds position have the same Moore
/// neighbor counts everywhere.
pub proof fn lemma_moore_count_ext(
    g1: Seq<Seq<bool>>,
    g2: Seq<Seq<bool>>,
    h: int,
    w: int,
    i: int,
    j: int,
)
    requires
        0 < h,
        0 < w,
        forall|r: int, c: int| 0 <= r < h && 0 <= c < w ==> g1[r][c] == #[trigger] g2[r][c],
    ensures
        moore_count(g1, h, w, i, j) == moore_count(g2, h, w, i, j),
{
    assert forall|r: int, c: int|
        at_wrapped(g1, h, w, r, c) == #[trigger] at_wrapped(g2, h, w, r, c) by {
        vstd::arithmetic::div_mod::lemma_mod_bound(r, h);
        vstd::arithmetic::div_mod::lemma_mod_bound(c, w);
    }
}

/// A dense 2D array of cell values, drawn row-major.
pub struct Canvas<T: Colorize> {
    hgt: usize,
    wth: usize,
    tab: Vec<Vec<T>>,
}

impl<T: Colorize> Canvas<T> {
    /// Number of rows.
    pub closed spec fn height(self) -> int {
        self.hgt as int
    }

    /// Number of columns.
    pub closed spec fn width(self) -> int {
        self.wth as int
    }

    /// The grid contents as a sequence of rows.
    pub closed spec fn cells(self) -> Seq<Seq<T>> {
        self.tab@.map_values(|row: Vec<T>| row@)
    }

    /// The grid is non-empty, rectangular, and its dimensions are small
    /// enough that signed offsets around any index stay representable.
    pub open spec fn wf(self) -> bool {
        &&& 0 < self.height() <= isize::MAX
        &&& 0 < self.width() <= isize::MAX
        &&& self.cells().len() == self.height()
        &&& forall|i: int|
            0 <= i < self.height() ==> (#[trigger] self.cells()[i]).len() == self.width()
    }

    /// Fill a fresh grid with copies of a default value.
    pub fn new(hgt: usize, wth: usize, init: T) -> (c: Self)
        requires
            0 < hgt <= isize::MAX,
            0 < wth <= isize::MAX,
        ensures
            c.wf(),
            c.height() == hgt,
            c.width() == wth,
            forall|i: int, j: int|
                0 <= i < hgt && 0 <= j < wth ==> #[trigger] c.cells()[i][j] == init,
    {
        let mut tab: Vec<Vec<T>> = Vec::new();
        let mut i: usize = 0;
        while i < hgt
            invariant
                i <= hgt,
                tab@.len() == i,
                forall|r: int| 0 <= r < i ==> (#[trigger] tab@[r])@.len() == wth,
                forall|r: int, c: int|
                    0 <= r < i && 0 <= c < wth ==> #[trigger] tab@[r]@[c] == init,
            decreases hgt - i,
        {
            let mut row: Vec<T> = Vec::new();
            let mut j: usize = 0;
            while j < wth
                invariant
                    j <= wth,
                    row@.len() == j,
                    forall|c: int| 0 <= c < j ==> #[trigger] row@[c] == init,
                decreases wth - j,
            {
                row.push(init);
                j += 1;
            }
            tab.push(row);
            i += 1;
        }
        Canvas { hgt, wth, tab }
    }

    /// Read the cell at an in-bounds position.
    pub fn get(&self, i: usize, j: usize) -> (v: T)
        requires
            self.wf(),
            i < self.height(),
            j < self.width(),
        ensures
            v == self.cells()[i as int][j as int],
    {
        proof {
            assert(self.tab@.len() == self.cells().len());
            assert(self.tab@[i as int]@ == self.cells()[i as int]);
        }
        self.tab[i][j]
    }

    /// Overwrite the cell at an in-bounds position.
    pub fn set(&mut self, i: usize, j: usize, v: T)
        requires
            old(self).wf(),
            i < old(self).height(),
            j < old(self).width(),
        ensures
            final(self).wf(),
            final(self).height() == old(self).height(),
            final(self).width() == old(self).width(),
            final(self).cells() == old(self).cells().update(
                i as int,
                old(self).cells()[i as int].update(j as int, v),
            ),
    {
        proof {
            assert(self.tab@.len() == self.cells().len());
            assert(self.tab@[i as int]@ == self.cells()[i as int]);
        }
        self.tab[i][j] = v;
        proof {
            assert(self.cells() =~= old(self).cells().update(
                i as int,
                old(self).cells()[i as int].update(j as int, v),
            ));
        }
    }

    /// Normalize a pair of signed offsets to in-bounds coordinates by
    /// wrapping around the edges.
    pub fn mod_idx(&self, i: isize, j: isize) -> (p: (usize, usize))
        requires
            self.wf(),
        ensures
            p.0 == wrap(i as int, self.height()),
            p.1 == wrap(j as int, self.width()),
            p.0 < self.height(),
            p.1 < self.width(),
    {
        proof {
            vstd::arithmetic::div_mod::lemma_mod_bound(i as int, self.height());
            vstd::arithmetic::div_mod::lemma_mod_bound(j as int, self.width());
        }
        (mod_idx(i, self.hgt), mod_idx(j, self.wth))
    }

    /// Read the cell at a wrapped position.
    pub fn mod_get(&self, i: isize, j: isize) -> (v: T)
        requires
            self.wf(),
        ensures
            v == self.cells()[wrap(i as int, self.height())][wrap(j as int, self.width())],
    {
        let (wi, wj) = self.mod_idx(i, j);
        self.get(wi, wj)
    }

    /// The grid's cells drawn as colors.
    pub open spec fn colors(self) -> Seq<Seq<Color>> {
        Seq::new(
            self.height() as nat,
            |i: int| Seq::new(self.width() as nat, |j: int| self.cells()[i][j].color_spec()),
        )
    }

    /// Serialize the grid as a plain-text PPM image: the header names the
    /// dimensions and the channel range, then every cell's three channels
    /// follow in row-major order.
    #[verifier::loop_isolation(false)]
    #[verifier::rlimit(100)]
    pub fn render_string(&self) -> (s: String)
        requires
            self.wf(),
        ensures
            s@ == ppm_chars(self.colors(), self.height(), self.width()),
    {
        let ghost h = self.height();
        let ghost w = self.width();
        let ghost cs = self.colors();
        let mut out = String::new();
        proof {
            reveal_strlit("P3\n");
            reveal_strlit(" ");
            reveal_strlit("\n25\n");
            reveal_strlit("\n");
        }
        out.append("P3\n");
        push_dec(&mut out, self.wth);
        out.append(" ");
        push_dec(&mut out, self.hgt);
        out.append("\n25\n");
        let ghost header = out@;
        proof {
            assert(header =~= ppm_header(h, w));
        }
        let mut i: usize = 0;
        while i < self.hgt
            invariant
                i <= self.hgt,
                out@ == header + ppm_body(cs, i as int, w),
            decreases self.hgt - i,
        {
            let mut j: usize = 0;
            while j < self.wth
                invariant
                    i < self.hgt,
                    j <= self.wth,
                    out@ == header + ppm_body(cs, i as int, w) + ppm_row(cs[i as int], j as int),
                decreases self.wth - j,
            {
                let c = self.get(i, j).color();
                push_dec(&mut out, c.0 as usize);
                out.append(" ");
                push_dec(&mut out, c.1 as usize);
                out.append(" ");
                push_dec(&mut out, c.2 as usize);
                out.append(" ");
                proof {
                    assert(cs[i as int][j as int] == c);
                    assert(out@ =~= header + ppm_body(cs, i as int, w) + ppm_row(
                        cs[i as int],
                        j + 1,
                    ));
                }
                j += 1;
            }
            proof {
                assert(out@ =~= header + ppm_body(cs, i + 1, w));
            }
            i += 1;
        }
        proof {
            assert(out@ =~= ppm_chars(cs, h, w));
        }
        out
    }
}

/// The PPM header: the format tag, the image's width and height, and the
/// top of the channel range.
pub open spec fn ppm_header(h: int, w: int) -> Seq<char> {
    seq!['P', '3', '\n'] + dec_chars(w as nat) + seq![' '] + dec_chars(h as nat) + seq![
        '\n',
        '2',
        '5',
        '\n',
    ]
}

/// One cell's three channels, each followed by a space.
pub open spec fn ppm_cell(c: Color) -> Seq<char> {
    dec_chars(c.0 as nat) + seq![' '] + dec_chars(c.1 as nat) + seq![' '] + dec_chars(c.2 as nat)
        + seq![' ']
}

/// The first `k` cells of a row, serialized.
pub open spec fn ppm_row(row: Seq<Color>, k: int) -> Seq<char>
    decreases k,
{
    if k <= 0 {
        Seq::empty()
    } else {
        ppm_row(row, k - 1) + ppm_cell(row[k - 1])
    }
}

/// The first `k` rows of the image body, serialized row-major.
pub open spec fn ppm_body(g: Seq<Seq<Color>>, k: int, w: int) -> Seq<char>
    decreases k,
{
    if k <= 0 {
        Seq::empty()
    } else {
        ppm_body(g, k - 1, w) + ppm_row(g[k - 1], w)
    }
}

/// The whole PPM text of a color grid.
pub open spec fn ppm_chars(g: Seq<Seq<Color>>, h: int, w: int) -> Seq<char> {
    ppm_header(h, w) + ppm_body(g, h, w)
}

} // verus!
