//! Random choices. The library does not draw random numbers itself: the caller
//! hands it a supply of uniformly random 32-bit words, and each random choice
//! of the generators consumes the next word. A word `w` stands for the
//! fraction `w / 2^32` in `[0, 1)`, so "a random index below `n`" is
//! `floor(w * n / 2^32)` and "a coin flip" is `w < 2^31`.
use vstd::prelude::*;

verus! {

/// The index below `bound` that the word `word` selects: `floor(word * bound / 2^32)`.
pub open spec fn scale(word: u32, bound: u64) -> u64 {
    ((word as int * bound as int) / 0x1_0000_0000) as u64
}

/// A scaled word lies below its bound.
pub proof fn lemma_scale_below(word: u32, bound: u64)
    ensures
        0 <= (word as int * bound as int) / 0x1_0000_0000 <= bound,
        bound > 0 ==> scale(word, bound) < bound,
{
    assert(0 <= word as int * bound as int <= 0xffff_ffff * bound as int) by (nonlinear_arith);
    assert((word as int * bound as int) / 0x1_0000_0000 <= bound) by (nonlinear_arith)
        requires
            0 <= word as int * bound as int <= 0xffff_ffff * bound as int,
            bound >= 0,
    ;
    if bound > 0 {
        assert((word as int * bound as int) / 0x1_0000_0000 < bound as int) by (nonlinear_arith)
            requires
                0 <= word as int * bound as int <= 0xffff_ffff * bound as int,
                bound > 0,
        ;
    }
}

/// How a word selects an index below `bound`: the smallest word gives 0, the
/// largest gives `bound - 1`, and a larger word never gives a smaller index.
pub proof fn lemma_scale_range(word: u32, other: u32, bound: u64)
    requires
        1 <= bound <= 0x1_0000_0000,
    ensures
        scale(0, bound) == 0,
        scale(0xffff_ffff, bound) == bound - 1,
        word <= other ==> scale(word, bound) <= scale(other, bound),
        scale(word, bound) < bound,
{
    let b = bound as int;
    assert(0xffff_ffff * b == 0x1_0000_0000 * (b - 1) + (0x1_0000_0000 - b)) by (nonlinear_arith);
    assert((0xffff_ffff * b) / 0x1_0000_0000 == b - 1) by (nonlinear_arith)
        requires
            0xffff_ffff * b == 0x1_0000_0000 * (b - 1) + (0x1_0000_0000 - b),
            1 <= b <= 0x1_0000_0000,
    ;
    if word <= other {
        assert(word as int * b <= other as int * b) by (nonlinear_arith)
            requires
                word <= other,
                b >= 1,
        ;
        vstd::arithmetic::div_mod::lemma_div_is_ordered(word as int * b, other as int * b, 0x1_0000_0000);
    }
    lemma_scale_below(word, bound);
    lemma_scale_below(other, bound);
}

/// A supply of random words, consumed from the front.
pub struct Draws {
    words: Vec<u32>,
    next: usize,
}

impl Draws {
    /// All the words of the supply, used or not.
    pub closed spec fn spec_words(&self) -> Seq<u32> {
        self.words@
    }

    /// How many words have been used.
    pub closed spec fn spec_next(&self) -> nat {
        self.next as nat
    }

    /// The used count never passes the end.
    pub open spec fn wf(&self) -> bool {
        self.spec_next() <= self.spec_words().len()
    }

    /// Every word has been used.
    pub open spec fn exhausted(&self) -> bool {
        self.spec_next() == self.spec_words().len()
    }

    /// `later` is this supply after some more words were used.
    pub open spec fn advanced_to(&self, later: &Draws) -> bool {
        &&& later.spec_words() == self.spec_words()
        &&& self.spec_next() <= later.spec_next() <= later.spec_words().len()
    }

    /// A fresh supply that starts at the first word.
    pub fn new(words: Vec<u32>) -> (d: Draws)
        ensures
            d.wf(),
            d.spec_words() == words@,
            d.spec_next() == 0,
    {
        Draws { words, next: 0 }
    }

    /// How many words are left.
    pub fn remaining(&self) -> (n: usize)
        requires
            self.wf(),
        ensures
            n == self.spec_words().len() - self.spec_next(),
    {
        self.words.len() - self.next
    }

    /// Use the next word to pick an index below `bound` (0 when `bound` is 0);
    /// `None`, using nothing, when no word is left.
    pub fn below(&mut self, bound: u64) -> (r: Option<u64>)
        requires
            old(self).wf(),
        ensures
            final(self).wf(),
            final(self).spec_words() == old(self).spec_words(),
            match r {
                Some(v) => {
                    &&& old(self).spec_next() < old(self).spec_words().len()
                    &&& v == scale(old(self).spec_words()[old(self).spec_next() as int], bound)
                    &&& final(self).spec_next() == old(self).spec_next() + 1
                },
                None => {
                    &&& old(self).exhausted()
                    &&& final(self).spec_next() == old(self).spec_next()
                },
            },
    {
        if self.next >= self.words.len() {
            return None;
        }
        let word = self.words[self.next];
        self.next = self.next + 1;
        proof {
            lemma_scale_below(word, bound);
        }
        let wide: u128 = (word as u128) * (bound as u128);
        Some((wide / 0x1_0000_0000u128) as u64)
    }

    /// Use the next word as a fair coin: `true` when its fraction is below one
    /// half. `None`, using nothing, when no word is left.
    pub fn coin(&mut self) -> (r: Option<bool>)
        requires
            old(self).wf(),
        ensures
            final(self).wf(),
            final(self).spec_words() == old(self).spec_words(),
            match r {
                Some(b) => {
                    &&& old(self).spec_next() < old(self).spec_words().len()
                    &&& b == (old(self).spec_words()[old(self).spec_next() as int] < 0x8000_0000)
                    &&& final(self).spec_next() == old(self).spec_next() + 1
                },
                None => {
                    &&& old(self).exhausted()
                    &&& final(self).spec_next() == old(self).spec_next()
                },
            },
    {
        if self.next >= self.words.len() {
            return None;
        }
        let word = self.words[self.next];
        self.next = self.next + 1;
        Some(word < 0x8000_0000)
    }
}

/// The cell that the words at `next` and `next + 1` select in a `rows` x
/// `cols` grid: the row from the first, the column from the second.
pub open spec fn random_cell(words: Seq<u32>, next: int, rows: u32, cols: u32) -> (u32, u32) {
    (scale(words[next], rows as u64) as u32, scale(words[next + 1], cols as u64) as u32)
}

/// A random cell of a `rows` x `cols` grid: the row from the next word, then
/// the column from the one after. `None` when the words run out.
pub fn choose_random_cell(rows: u32, cols: u32, draws: &mut Draws) -> (r: Option<(u32, u32)>)
    requires
        old(draws).wf(),
    ensures
        old(draws).advanced_to(final(draws)),
        r matches Some((a, b)) ==> (rows > 0 ==> a < rows) && (cols > 0 ==> b < cols),
        ({
            let w = old(draws).spec_words();
            let n = old(draws).spec_next() as int;
            if n + 2 <= w.len() {
                &&& r == Some(random_cell(w, n, rows, cols))
                &&& final(draws).spec_next() == n + 2
            } else {
                &&& r is None
                &&& final(draws).exhausted()
            }
        }),
{
    let row = match draws.below(rows as u64) {
        Some(v) => v,
        None => return None,
    };
    let col = match draws.below(cols as u64) {
        Some(v) => v,
        None => return None,
    };
    proof {
        lemma_scale_below(draws.spec_words()[draws.spec_next() - 2], rows as u64);
        lemma_scale_below(draws.spec_words()[draws.spec_next() - 1], cols as u64);
    }
    Some((row as u32, col as u32))
}

/// The neighbour of (row, col) in direction `dir` (0 north, 1 south, 2 west,
/// 3 east), when it lies inside a `width` x `height` grid.
pub open spec fn neighbor_in(row: u32, col: u32, width: u32, height: u32, dir: u64) -> Option<(u32, u32)> {
    if dir == 0 && row > 0 {
        Some(((row - 1) as u32, col))
    } else if dir == 1 && row + 1 < height {
        Some(((row + 1) as u32, col))
    } else if dir == 2 && col > 0 {
        Some((row, (col - 1) as u32))
    } else if dir == 3 && col + 1 < width {
        Some((row, (col + 1) as u32))
    } else {
        None
    }
}

/// Drawing directions from the words starting at `next` until one leads to a
/// neighbour: that neighbour and the position after the word that chose it,
/// or `None` and the end when the words run out first.
pub open spec fn neighbor_search(
    row: u32,
    col: u32,
    width: u32,
    height: u32,
    words: Seq<u32>,
    next: int,
) -> (Option<(u32, u32)>, int)
    decreases words.len() - next,
{
    if next < 0 || next >= words.len() {
        (None, words.len() as int)
    } else {
        match neighbor_in(row, col, width, height, scale(words[next], 4)) {
            Some(p) => (Some(p), next + 1),
            None => neighbor_search(row, col, width, height, words, next + 1),
        }
    }
}

/// Whether (r2, c2) is one of the four neighbours of (r1, c1).
pub open spec fn is_neighbor(r1: u32, c1: u32, r2: u32, c2: u32) -> bool {
    ||| r2 + 1 == r1 && c2 == c1
    ||| r2 == r1 + 1 && c2 == c1
    ||| r2 == r1 && c2 + 1 == c1
    ||| r2 == r1 && c2 == c1 + 1
}

/// The search uses at least one word when it succeeds, stops at the end when
/// it fails, and from a cell inside the grid finds a neighbour inside it.
pub proof fn lemma_neighbor_search(
    row: u32,
    col: u32,
    width: u32,
    height: u32,
    words: Seq<u32>,
    next: int,
)
    requires
        0 <= next <= words.len(),
    ensures
        ({
            let (res, pos) = neighbor_search(row, col, width, height, words, next);
            &&& next <= pos <= words.len()
            &&& res is None ==> pos == words.len()
            &&& res matches Some((a, b)) ==> {
                &&& pos > next
                &&& row < height && col < width ==> a < height && b < width
                &&& is_neighbor(row, col, a, b)
            }
        }),
    decreases words.len() - next,
{
    if next < words.len() {
        if neighbor_in(row, col, width, height, scale(words[next], 4)) is None {
            lemma_neighbor_search(row, col, width, height, words, next + 1);
        }
    }
}

/// A random neighbour of (row, col) inside the grid: directions are drawn
/// until one leads inside. `None` when the words run out first.
pub fn pick_random_neighbor(row: u32, col: u32, width: u32, height: u32, draws: &mut Draws) -> (r:
    Option<(u32, u32)>)
    requires
        old(draws).wf(),
    ensures
        old(draws).advanced_to(final(draws)),
        ({
            let (res, pos) = neighbor_search(
                row,
                col,
                width,
                height,
                old(draws).spec_words(),
                old(draws).spec_next() as int,
            );
            r == res && final(draws).spec_next() == pos
        }),
        r is Some ==> final(draws).spec_next() > old(draws).spec_next(),
        r is None ==> final(draws).exhausted(),
        r matches Some((a, b)) ==> (row < height && col < width ==> a < height && b < width)
            && is_neighbor(row, col, a, b),
{
    proof {
        lemma_neighbor_search(row, col, width, height, draws.spec_words(), draws.spec_next() as int);
    }
    loop
        invariant
            draws.wf(),
            old(draws).advanced_to(draws),
            neighbor_search(row, col, width, height, old(draws).spec_words(), old(draws).spec_next() as int)
                == neighbor_search(row, col, width, height, draws.spec_words(), draws.spec_next() as int),
        decreases draws.spec_words().len() - draws.spec_next(),
    {
        let dir = match draws.below(4) {
            Some(d) => d,
            None => return None,
        };
        if dir == 0 && row > 0 {
            return Some((row - 1, col));
        } else if dir == 1 && height > 0 && row < height - 1 {
            return Some((row + 1, col));
        } else if dir == 2 && col > 0 {
            return Some((row, col - 1));
        } else if dir == 3 && width > 0 && col < width - 1 {
            return Some((row, col + 1));
        }
    }
}

} // verus!
