//! Run configuration: which automaton a run simulates, the run's name, and
//! the naming of the numbered frame files handed to the renderer.

use vstd::prelude::*;
use vstd::string::StrSliceExecFns;
use vstd::string::StringExecFns;

use crate::canvas::{dec_chars, push_dec, zero_chars};
use crate::turmite::Turn;

verus! {

/// The automaton a run simulates, with its per-variant configuration: a
/// life-like run carries its rule description, a turmite run its
/// transition tables.
pub enum Automaton {
    Sandpile,
    LifeLike(String),
    Brain,
    Turmite(Vec<Vec<(usize, Turn)>>),
}

impl Automaton {
    /// The automaton's name as used in file names.
    pub open spec fn str_spec(&self) -> Seq<char> {
        match self {
            Automaton::Sandpile => seq!['s', 'a', 'n', 'd'],
            Automaton::LifeLike(r) => seq!['l', 'i', 'f', 'e', '-'] + r@,
            Automaton::Brain => seq!['b', 'r', 'a', 'i', 'n'],
            Automaton::Turmite(_) => seq!['t', 'u', 'r', 'm', 'i', 't', 'e'],
        }
    }

    /// The automaton's name as used in file names.
    pub fn str(&self) -> (s: String)
        ensures
            s@ == self.str_spec(),
    {
        match self {
            Automaton::Sandpile => {
                proof {
                    reveal_strlit("sand");
                }
                let s = String::from_str("sand");
                proof {
                    assert(s@ =~= self.str_spec());
                }
                s
            },
            Automaton::LifeLike(r) => {
                proof {
                    reveal_strlit("life-");
                }
                let mut s = String::from_str("life-");
                s.append(r.as_str());
                proof {
                    assert(s@ =~= self.str_spec());
                }
                s
            },
            Automaton::Brain => {
                proof {
                    reveal_strlit("brain");
                }
                let s = String::from_str("brain");
                proof {
                    assert(s@ =~= self.str_spec());
                }
                s
            },
            Automaton::Turmite(_) => {
                proof {
                    reveal_strlit("turmite");
                }
                let s = String::from_str("turmite");
                proof {
                    assert(s@ =~= self.str_spec());
                }
                s
            },
        }
    }
}

/// The decimal numeral of `n` left-padded with zeros to width `len` (or
/// unpadded if it is already wider).
pub open spec fn lpad_chars(n: nat, len: int) -> Seq<char> {
    zero_chars(len - dec_chars(n).len()) + dec_chars(n)
}

/// A run's configuration: the automaton, the run's name, the index of the
/// next frame, and the encoder quality setting.
pub struct Config {
    algo: Automaton,
    name: String,
    idx: usize,
    framerate: usize,
}

impl Config {
    /// The automaton this run simulates.
    pub closed spec fn algo_of(self) -> Automaton {
        self.algo
    }

    /// The run's name.
    pub closed spec fn run_name(self) -> Seq<char> {
        self.name@
    }

    /// The index of the next frame.
    pub closed spec fn index(self) -> int {
        self.idx as int
    }

    /// The encoder quality setting.
    pub closed spec fn rate(self) -> int {
        self.framerate as int
    }

    /// The working directory for the run's frames: `.{type}_{name}`.
    pub open spec fn dir_spec(self) -> Seq<char> {
        seq!['.'] + self.algo_of().str_spec() + seq!['_'] + self.run_name()
    }

    /// The final video file: `{type}_{name}.avi`.
    pub open spec fn file_spec(self) -> Seq<char> {
        self.algo_of().str_spec() + seq!['_'] + self.run_name() + seq!['.', 'a', 'v', 'i']
    }

    /// The file of frame `idx`: `{dir}/out-{num}.ppm` with the number
    /// zero-padded to five digits.
    pub open spec fn frame_name(self, idx: int) -> Seq<char> {
        self.dir_spec() + seq!['/', 'o', 'u', 't', '-'] + lpad_chars(idx as nat, 5) + seq![
            '.',
            'p',
            'p',
            'm',
        ]
    }

    /// A new run, its frame counter at zero.
    pub fn new(algo: Automaton, name: String, framerate: usize) -> (c: Config)
        ensures
            c.algo_of() == algo,
            c.run_name() == name@,
            c.index() == 0,
            c.rate() == framerate,
    {
        Config { algo, name, idx: 0, framerate }
    }

    /// The index of the next frame.
    pub fn frame_index(&self) -> (n: usize)
        ensures
            n == self.index(),
    {
        self.idx
    }

    /// The encoder quality setting.
    pub fn framerate(&self) -> (n: usize)
        ensures
            n == self.rate(),
    {
        self.framerate
    }

    /// The working directory for the run's frames.
    pub fn dir(&self) -> (s: String)
        ensures
            s@ == self.dir_spec(),
    {
        proof {
            reveal_strlit(".");
            reveal_strlit("_");
        }
        let mut s = String::from_str(".");
        let tag = self.algo.str();
        s.append(tag.as_str());
        s.append("_");
        s.append(self.name.as_str());
        proof {
            assert(s@ =~= self.dir_spec());
        }
        s
    }

    /// The final video file's name.
    pub fn file(&self) -> (s: String)
        ensures
            s@ == self.file_spec(),
    {
        proof {
            reveal_strlit("_");
            reveal_strlit(".avi");
        }
        let mut s = self.algo.str();
        s.append("_");
        s.append(self.name.as_str());
        s.append(".avi");
        proof {
            assert(s@ =~= self.file_spec());
        }
        s
    }

    /// Left-pad a number's decimal numeral with zeros to the given width.
    pub fn lpad(n: usize, len: usize) -> (s: String)
        ensures
            s@ == lpad_chars(n as nat, len as int),
    {
        let mut digits = String::new();
        push_dec(&mut digits, n);
        let dlen = digits.as_str().unicode_len();
        proof {
            reveal_strlit("0");
        }
        let mut s = String::new();
        let mut k: usize = dlen;
        while k < len
            invariant
                dlen <= k,
                k <= len || k == dlen,
                dlen == dec_chars(n as nat).len(),
                s@ =~= zero_chars(k - dlen),
            decreases len - k,
        {
            s.append("0");
            proof {
                reveal_strlit("0");
                assert(s@ =~= zero_chars(k + 1 - dlen));
            }
            k += 1;
        }
        s.append(digits.as_str());
        proof {
            assert(s@ =~= lpad_chars(n as nat, len as int));
        }
        s
    }

    /// The next frame's file name, advancing the frame counter.
    pub fn frame(&mut self) -> (s: String)
        requires
            old(self).index() < usize::MAX,
        ensures
            final(self).index() == old(self).index() + 1,
            final(self).algo_of() == old(self).algo_of(),
            final(self).run_name() == old(self).run_name(),
            final(self).rate() == old(self).rate(),
            s@ == old(self).frame_name(old(self).index()),
    {
        let idx = self.idx;
        self.idx = self.idx + 1;
        proof {
            reveal_strlit("/out-");
            reveal_strlit(".ppm");
        }
        let mut s = self.dir();
        s.append("/out-");
        let num = Config::lpad(idx, 5);
        s.append(num.as_str());
        s.append(".ppm");
        proof {
            assert(self.dir_spec() == old(self).dir_spec());
            assert(s@ =~= old(self).frame_name(idx as int));
        }
        s
    }
}

} // verus!
