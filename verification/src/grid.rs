//! Word search on a rectangular grid of the letters X, M, A and S.
//!
//! The grid is stored row by row; the cell in column `x` of row `y` has the
//! flat index `y * width + x`.

use vstd::prelude::*;
use vstd::arithmetic::div_mod::lemma_fundamental_div_mod_converse;

verus! {

/// Number of letters of the word that is searched for.
pub const XMAS_LEN: usize = 4;

/// One cell of the word search.
#[derive(Clone, Copy, PartialEq, Eq, Structural, Debug)]
pub enum Letter {
    X,
    M,
    A,
    S,
}

/// One of the eight compass directions. North is towards row 0, west towards
/// column 0.
#[derive(Clone, Copy, PartialEq, Eq, Structural, Debug)]
pub enum Direction {
    NorthWest,
    North,
    NorthEast,
    East,
    SouthEast,
    South,
    SouthWest,
    West,
}

/// Why a block of text is not a word search.
#[derive(Clone, Copy, PartialEq, Eq, Structural, Debug)]
pub enum GridError {
    /// A byte other than `X`, `M`, `A` or `S`, at the given row and column.
    InvalidLetter { row: usize, col: usize },
    /// The given row is not as long as the first one.
    RaggedRow { row: usize },
    /// The grid has more cells than the counters can hold.
    TooLarge,
}

/// A rectangular grid of letters.
pub struct Grid {
    pub width: usize,
    pub height: usize,
    pub squares: Vec<Letter>,
}

/// The `k`-th letter of the word: X, M, A, S.
pub open spec fn xmas_letter(k: int) -> Letter {
    if k <= 0 {
        Letter::X
    } else if k == 1 {
        Letter::M
    } else if k == 2 {
        Letter::A
    } else {
        Letter::S
    }
}

/// The letter that a byte stands for, if any.
pub open spec fn letter_of(b: u8) -> Option<Letter> {
    if b == 0x58 {
        Some(Letter::X)
    } else if b == 0x4d {
        Some(Letter::M)
    } else if b == 0x41 {
        Some(Letter::A)
    } else if b == 0x53 {
        Some(Letter::S)
    } else {
        None
    }
}

/// One of the pair is an M and the other an S.
pub open spec fn ms_pair(first: Letter, second: Letter) -> bool {
    (first == Letter::M && second == Letter::S) || (first == Letter::S && second == Letter::M)
}

impl Letter {
    /// The letter that follows this one in the word; the last has none.
    pub open spec fn successor(self) -> Option<Letter> {
        match self {
            Letter::X => Some(Letter::M),
            Letter::M => Some(Letter::A),
            Letter::A => Some(Letter::S),
            Letter::S => None,
        }
    }

    /// Reads a letter from its ASCII byte.
    pub fn new(b: u8) -> (r: Option<Letter>)
        ensures
            r == letter_of(b),
    {
        if b == 0x58 {
            Some(Letter::X)
        } else if b == 0x4d {
            Some(Letter::M)
        } else if b == 0x41 {
            Some(Letter::A)
        } else if b == 0x53 {
            Some(Letter::S)
        } else {
            None
        }
    }

    /// The letter expected after this one.
    pub fn next(self) -> (r: Option<Letter>)
        ensures
            r == self.successor(),
    {
        match self {
            Letter::X => Some(Letter::M),
            Letter::M => Some(Letter::A),
            Letter::A => Some(Letter::S),
            Letter::S => None,
        }
    }
}

impl Direction {
    /// Change of column for one step.
    pub open spec fn step_x(self) -> int {
        match self {
            Direction::West | Direction::NorthWest | Direction::SouthWest => -1,
            Direction::North | Direction::South => 0,
            Direction::East | Direction::NorthEast | Direction::SouthEast => 1,
        }
    }

    /// Change of row for one step.
    pub open spec fn step_y(self) -> int {
        match self {
            Direction::North | Direction::NorthWest | Direction::NorthEast => -1,
            Direction::West | Direction::East => 0,
            Direction::South | Direction::SouthWest | Direction::SouthEast => 1,
        }
    }

    pub fn dx(self) -> (r: isize)
        ensures
            r == self.step_x(),
    {
        match self {
            Direction::West | Direction::NorthWest | Direction::SouthWest => -1,
            Direction::North | Direction::South => 0,
            Direction::East | Direction::NorthEast | Direction::SouthEast => 1,
        }
    }

    pub fn dy(self) -> (r: isize)
        ensures
            r == self.step_y(),
    {
        match self {
            Direction::North | Direction::NorthWest | Direction::NorthEast => -1,
            Direction::West | Direction::East => 0,
            Direction::South | Direction::SouthWest | Direction::SouthEast => 1,
        }
    }
}

/// `k * d` for a unit step `d`, without multiplication.
pub proof fn lemma_unit_step(k: int, d: int)
    requires
        -1 <= d <= 1,
    ensures
        k * d == (if d == -1 { -k } else if d == 0 { 0 } else { k }),
{
    assert(k * d == (if d == -1 { -k } else if d == 0 { 0 } else { k })) by (nonlinear_arith)
        requires
            -1 <= d <= 1,
    ;
}

/// Column and row of a flat index are in range and give the index back.
pub proof fn lemma_coords(i: int, w: int, h: int)
    requires
        0 <= i < w * h,
        0 <= w,
        0 <= h,
    ensures
        0 < w,
        0 <= i % w < w,
        0 <= i / w < h,
        i == (i / w) * w + i % w,
{
    assert(0 < w && 0 <= i % w < w && 0 <= i / w < h && i == (i / w) * w + i % w)
        by (nonlinear_arith)
        requires
            0 <= i < w * h,
            0 <= w,
            0 <= h,
    ;
}

/// A column and a row in range give a flat index in range, which gives them
/// back.
pub proof fn lemma_index(x: int, y: int, w: int, h: int)
    requires
        0 <= x < w,
        0 <= y < h,
    ensures
        0 <= y * w + x < w * h,
        (y * w + x) % w == x,
        (y * w + x) / w == y,
{
    assert(0 <= y * w + x < w * h) by (nonlinear_arith)
        requires
            0 <= x < w,
            0 <= y < h,
    ;
    lemma_fundamental_div_mod_converse(y * w + x, w, y, x);
}


impl Grid {
    /// Every row has `width` cells, and the counters can hold eight matches
    /// for each cell.
    pub open spec fn wf(&self) -> bool {
        &&& self.squares@.len() == self.width * self.height
        &&& self.squares@.len() <= usize::MAX / 8
    }

    /// Column of the cell with flat index `i`.
    pub open spec fn col(&self, i: int) -> int {
        i % (self.width as int)
    }

    /// Row of the cell with flat index `i`.
    pub open spec fn row(&self, i: int) -> int {
        i / (self.width as int)
    }

    pub open spec fn in_bounds(&self, x: int, y: int) -> bool {
        0 <= x < self.width && 0 <= y < self.height
    }

    /// The letter in column `x` of row `y`.
    pub open spec fn at(&self, x: int, y: int) -> Letter
        recommends
            self.in_bounds(x, y),
    {
        self.squares@[y * self.width + x]
    }

    /// `len` steps from cell `i` in direction `dir` end inside the grid.
    pub open spec fn reaches(&self, i: int, dir: Direction, len: int) -> bool {
        self.in_bounds(self.col(i) + len * dir.step_x(), self.row(i) + len * dir.step_y())
    }

    /// The whole word fits into the grid when it starts at cell `i` and runs
    /// in direction `dir`.
    pub open spec fn feasible(&self, i: int, dir: Direction) -> bool {
        self.reaches(i, dir, XMAS_LEN - 1)
    }

    /// The letter `k` steps from cell `i` in direction `dir` is inside the
    /// grid and is the `k`-th letter of the word.
    pub open spec fn letter_matches(&self, i: int, dir: Direction, k: int) -> bool {
        &&& self.reaches(i, dir, k)
        &&& self.at(self.col(i) + k * dir.step_x(), self.row(i) + k * dir.step_y())
            == xmas_letter(k)
    }

    /// The letters after the first one match, each checked against the
    /// bounds on its own.
    pub open spec fn tail_matches(&self, i: int, dir: Direction) -> bool {
        forall|k: int| 1 <= k < XMAS_LEN ==> #[trigger] self.letter_matches(i, dir, k)
    }

    /// The word starts at cell `i` and runs in direction `dir`.
    pub open spec fn word_at(&self, i: int, dir: Direction) -> bool {
        self.squares@[i] == Letter::X && self.tail_matches(i, dir)
    }

    /// 1 if the word starts at cell `i` in direction `dir`, else 0.
    pub open spec fn hit(&self, i: int, dir: Direction) -> nat {
        if self.word_at(i, dir) {
            1
        } else {
            0
        }
    }

    /// Number of directions in which the word starts at cell `i`: all eight
    /// are tried.
    pub open spec fn hits_at(&self, i: int) -> nat {
        self.hit(i, Direction::NorthWest) + self.hit(i, Direction::North) + self.hit(
            i,
            Direction::NorthEast,
        ) + self.hit(i, Direction::East) + self.hit(i, Direction::SouthEast) + self.hit(
            i,
            Direction::South,
        ) + self.hit(i, Direction::SouthWest) + self.hit(i, Direction::West)
    }

    /// Number of occurrences of the word that start in one of the first `n`
    /// cells: every cell and every direction is tried.
    pub open spec fn hits_before(&self, n: nat) -> nat
        decreases n,
    {
        if n == 0 {
            0
        } else {
            self.hits_before((n - 1) as nat) + self.hits_at(n - 1)
        }
    }

    /// Number of occurrences of the word in the grid.
    pub open spec fn xmas_count(&self) -> nat {
        self.hits_before(self.squares@.len())
    }

    /// `dir` alone if the word fits from cell `i` in that direction, else
    /// nothing.
    pub open spec fn only_feasible(&self, i: int, dir: Direction) -> Seq<Direction> {
        if self.feasible(i, dir) {
            seq![dir]
        } else {
            Seq::empty()
        }
    }

    /// The directions in which the word fits from cell `i`, clockwise from
    /// north-west.
    pub open spec fn feasible_directions(&self, i: int) -> Seq<Direction> {
        self.only_feasible(i, Direction::NorthWest) + self.only_feasible(i, Direction::North)
            + self.only_feasible(i, Direction::NorthEast) + self.only_feasible(
            i,
            Direction::East,
        ) + self.only_feasible(i, Direction::SouthEast) + self.only_feasible(i, Direction::South)
            + self.only_feasible(i, Direction::SouthWest) + self.only_feasible(
            i,
            Direction::West,
        )
    }

    /// Cell `i` is not on the border.
    pub open spec fn interior(&self, i: int) -> bool {
        &&& 0 < self.col(i) < self.width - 1
        &&& 0 < self.row(i) < self.height - 1
    }

    /// The two diagonals through cell `i` each hold an M and an S.
    pub open spec fn diagonals_match(&self, i: int) -> bool {
        let x = self.col(i);
        let y = self.row(i);
        &&& ms_pair(self.at(x - 1, y - 1), self.at(x + 1, y + 1))
        &&& ms_pair(self.at(x + 1, y - 1), self.at(x - 1, y + 1))
    }

    /// Cell `i` is the centre of a cross: an A off the border whose
    /// diagonals each hold an M and an S.
    pub open spec fn cross_at(&self, i: int) -> bool {
        self.interior(i) && self.squares@[i] == Letter::A && self.diagonals_match(i)
    }

    /// Number of crosses whose centre is one of the first `n` cells.
    pub open spec fn crosses_before(&self, n: nat) -> nat
        decreases n,
    {
        if n == 0 {
            0
        } else {
            self.crosses_before((n - 1) as nat) + (if self.cross_at(n - 1) {
                1nat
            } else {
                0nat
            })
        }
    }

    /// Number of crosses in the grid.
    pub open spec fn cross_count(&self) -> nat {
        self.crosses_before(self.squares@.len())
    }

    /// Flat index of the cell `len` steps from cell `i` in direction `dir`.
    pub fn translate(&self, i: usize, dir: Direction, len: usize) -> (r: usize)
        requires
            self.wf(),
            i < self.squares@.len(),
            self.reaches(i as int, dir, len as int),
        ensures
            r < self.squares@.len(),
            r == (self.row(i as int) + len * dir.step_y()) * self.width + (self.col(i as int) + len
                * dir.step_x()),
            self.col(r as int) == self.col(i as int) + len * dir.step_x(),
            self.row(r as int) == self.row(i as int) + len * dir.step_y(),
    {
        let dx = dir.dx();
        let dy = dir.dy();
        let mut idx = i;
        let ghost w = self.width as int;
        let ghost h = self.height as int;
        let ghost x = self.col(i as int);
        let ghost y = self.row(i as int);
        let ghost nx = x + len * dir.step_x();
        let ghost ny = y + len * dir.step_y();
        proof {
            lemma_coords(i as int, w, h);
            lemma_unit_step(len as int, dir.step_x());
            lemma_unit_step(len as int, dir.step_y());
            lemma_index(nx, ny, w, h);
            lemma_index(nx, y, w, h);
            assert(ny * w == y * w + (len * dir.step_y()) * w) by (nonlinear_arith)
                requires
                    ny == y + len * dir.step_y(),
            ;
            assert((len * dir.step_y()) * w == (if dir.step_y() == -1 {
                -(len * w)
            } else if dir.step_y() == 0 {
                0
            } else {
                len * w
            })) by (nonlinear_arith)
                requires
                    -1 <= dir.step_y() <= 1,
                    len * dir.step_y() == (if dir.step_y() == -1 {
                        -(len as int)
                    } else if dir.step_y() == 0 {
                        0
                    } else {
                        len as int
                    }),
            ;
            if dir.step_y() != 0 {
                assert(0 <= len * w <= w * h) by (nonlinear_arith)
                    requires
                        0 <= len < h,
                        0 < w,
                ;
            }
        }
        if dx > 0 {
            idx = idx + len;
        } else if dx < 0 {
            idx = idx - len;
        }
        assert(idx == y * w + nx);
        if dy > 0 {
            idx = idx + len * self.width;
        } else if dy < 0 {
            idx = idx - len * self.width;
        }
        idx
    }
}


impl Grid {
    /// Number of the directions in `dirs` in which the word starts at cell
    /// `i`.
    pub open spec fn hits_in(&self, i: int, dirs: Seq<Direction>) -> nat
        decreases dirs.len(),
    {
        if dirs.len() == 0 {
            0
        } else {
            self.hits_in(i, dirs.drop_last()) + self.hit(i, dirs.last())
        }
    }

    /// Matches in two lists of directions add up.
    pub proof fn lemma_hits_in_concat(&self, i: int, a: Seq<Direction>, b: Seq<Direction>)
        ensures
            self.hits_in(i, a + b) == self.hits_in(i, a) + self.hits_in(i, b),
        decreases b.len(),
    {
        if b.len() == 0 {
            assert(a + b =~= a);
        } else {
            assert((a + b).drop_last() =~= a + b.drop_last());
            assert((a + b).last() == b.last());
            self.lemma_hits_in_concat(i, a, b.drop_last());
        }
    }

    /// A direction in which the word does not fit holds no match, so
    /// leaving it out loses nothing.
    pub proof fn lemma_hits_in_only_feasible(&self, i: int, dir: Direction)
        ensures
            self.hits_in(i, self.only_feasible(i, dir)) == self.hit(i, dir),
    {
        if self.feasible(i, dir) {
            let s = seq![dir];
            assert(s.drop_last() =~= Seq::<Direction>::empty());
            assert(s.last() == dir);
            assert(self.hits_in(i, s.drop_last()) == 0);
        } else {
            assert(!self.letter_matches(i, dir, XMAS_LEN - 1));
        }
    }

    /// Every direction listed for cell `i` is one in which the word fits.
    pub proof fn lemma_feasible_member(&self, i: int, j: int)
        requires
            0 <= j < self.feasible_directions(i).len(),
        ensures
            self.feasible(i, self.feasible_directions(i)[j]),
    {
    }

    /// Trying only the directions in which the word fits finds as many
    /// matches at a cell as trying all eight with a bounds check at every
    /// letter.
    pub proof fn lemma_feasible_directions_suffice(&self, i: int)
        ensures
            self.hits_in(i, self.feasible_directions(i)) == self.hits_at(i),
            self.feasible_directions(i).len() <= 8,
            self.hits_at(i) <= 8,
    {
        let nw = self.only_feasible(i, Direction::NorthWest);
        let n = self.only_feasible(i, Direction::North);
        let ne = self.only_feasible(i, Direction::NorthEast);
        let e = self.only_feasible(i, Direction::East);
        let se = self.only_feasible(i, Direction::SouthEast);
        let so = self.only_feasible(i, Direction::South);
        let sw = self.only_feasible(i, Direction::SouthWest);
        let w = self.only_feasible(i, Direction::West);
        self.lemma_hits_in_only_feasible(i, Direction::NorthWest);
        self.lemma_hits_in_only_feasible(i, Direction::North);
        self.lemma_hits_in_only_feasible(i, Direction::NorthEast);
        self.lemma_hits_in_only_feasible(i, Direction::East);
        self.lemma_hits_in_only_feasible(i, Direction::SouthEast);
        self.lemma_hits_in_only_feasible(i, Direction::South);
        self.lemma_hits_in_only_feasible(i, Direction::SouthWest);
        self.lemma_hits_in_only_feasible(i, Direction::West);
        self.lemma_hits_in_concat(i, nw, n);
        self.lemma_hits_in_concat(i, nw + n, ne);
        self.lemma_hits_in_concat(i, nw + n + ne, e);
        self.lemma_hits_in_concat(i, nw + n + ne + e, se);
        self.lemma_hits_in_concat(i, nw + n + ne + e + se, so);
        self.lemma_hits_in_concat(i, nw + n + ne + e + se + so, sw);
        self.lemma_hits_in_concat(i, nw + n + ne + e + se + so + sw, w);
    }
}

/// The directions in which the whole word fits into the grid from cell `i`,
/// clockwise from north-west.
pub fn get_directions(grid: &Grid, i: usize) -> (dirs: Vec<Direction>)
    requires
        grid.wf(),
        i < grid.squares@.len(),
    ensures
        dirs@ == grid.feasible_directions(i as int),
{
    proof {
        lemma_coords(i as int, grid.width as int, grid.height as int);
    }
    let width = grid.width;
    let height = grid.height;
    let x = i % width;
    let y = i / width;
    let left_pad = x >= XMAS_LEN - 1;
    let right_pad = width >= XMAS_LEN && x <= width - XMAS_LEN;
    let top_pad = y >= XMAS_LEN - 1;
    let bot_pad = height >= XMAS_LEN && y <= height - XMAS_LEN;
    let ghost g = i as int;
    let mut dirs: Vec<Direction> = Vec::new();
    assert(dirs@ =~= Seq::<Direction>::empty());
    let ghost mut acc: Seq<Direction> = Seq::empty();

    if left_pad && top_pad {
        dirs.push(Direction::NorthWest);
    }
    proof {
        acc = grid.only_feasible(g, Direction::NorthWest);
        assert(dirs@ =~= acc);
    }
    if top_pad {
        dirs.push(Direction::North);
    }
    proof {
        acc = acc + grid.only_feasible(g, Direction::North);
        assert(dirs@ =~= acc);
    }
    if right_pad && top_pad {
        dirs.push(Direction::NorthEast);
    }
    proof {
        acc = acc + grid.only_feasible(g, Direction::NorthEast);
        assert(dirs@ =~= acc);
    }
    if right_pad {
        dirs.push(Direction::East);
    }
    proof {
        acc = acc + grid.only_feasible(g, Direction::East);
        assert(dirs@ =~= acc);
    }
    if right_pad && bot_pad {
        dirs.push(Direction::SouthEast);
    }
    proof {
        acc = acc + grid.only_feasible(g, Direction::SouthEast);
        assert(dirs@ =~= acc);
    }
    if bot_pad {
        dirs.push(Direction::South);
    }
    proof {
        acc = acc + grid.only_feasible(g, Direction::South);
        assert(dirs@ =~= acc);
    }
    if left_pad && bot_pad {
        dirs.push(Direction::SouthWest);
    }
    proof {
        acc = acc + grid.only_feasible(g, Direction::SouthWest);
        assert(dirs@ =~= acc);
    }
    if left_pad {
        dirs.push(Direction::West);
    }
    proof {
        acc = acc + grid.only_feasible(g, Direction::West);
        assert(dirs@ =~= acc);
    }
    dirs
}

/// Whether the letters after the X at cell `x_idx` spell the rest of the word
/// in direction `dir`.
pub fn is_xmas(grid: &Grid, x_idx: usize, dir: Direction) -> (r: bool)
    requires
        grid.wf(),
        x_idx < grid.squares@.len(),
        grid.feasible(x_idx as int, dir),
    ensures
        r == grid.tail_matches(x_idx as int, dir),
{
    let mut prev_letter: Letter = Letter::X;
    let mut i: usize = 1;
    proof {
        lemma_coords(x_idx as int, grid.width as int, grid.height as int);
        lemma_unit_step(XMAS_LEN - 1, dir.step_x());
        lemma_unit_step(XMAS_LEN - 1, dir.step_y());
    }
    while i < XMAS_LEN
        invariant
            grid.wf(),
            x_idx < grid.squares@.len(),
            grid.feasible(x_idx as int, dir),
            grid.in_bounds(grid.col(x_idx as int), grid.row(x_idx as int)),
            1 <= i <= XMAS_LEN,
            prev_letter == xmas_letter(i - 1),
            forall|k: int| 1 <= k < i ==> #[trigger] grid.letter_matches(x_idx as int, dir, k),
        decreases XMAS_LEN - i,
    {
        proof {
            lemma_unit_step(i as int, dir.step_x());
            lemma_unit_step(i as int, dir.step_y());
        }
        let idx = grid.translate(x_idx, dir, i);
        let curr_letter = grid.squares[idx];
        match prev_letter.next() {
            Some(next_letter) => {
                if curr_letter == next_letter {
                    prev_letter = curr_letter;
                } else {
                    assert(!grid.letter_matches(x_idx as int, dir, i as int));
                    return false;
                }
            },
            None => {
                return false;
            },
        }
        assert(grid.letter_matches(x_idx as int, dir, i as int));
        i = i + 1;
    }
    true
}

/// One of the two letters is an M and the other an S.
pub fn is_ms_pair(first: Letter, second: Letter) -> (r: bool)
    ensures
        r == ms_pair(first, second),
{
    match (first, second) {
        (Letter::M, Letter::S) | (Letter::S, Letter::M) => true,
        _ => false,
    }
}

/// Whether the two diagonals through the interior cell `a_idx` each hold an M
/// and an S.
pub fn is_x_mas(grid: &Grid, a_idx: usize) -> (r: bool)
    requires
        grid.wf(),
        a_idx < grid.squares@.len(),
        grid.interior(a_idx as int),
    ensures
        r == grid.diagonals_match(a_idx as int),
{
    let nw_letter = grid.squares[grid.translate(a_idx, Direction::NorthWest, 1)];
    let ne_letter = grid.squares[grid.translate(a_idx, Direction::NorthEast, 1)];
    let se_letter = grid.squares[grid.translate(a_idx, Direction::SouthEast, 1)];
    let sw_letter = grid.squares[grid.translate(a_idx, Direction::SouthWest, 1)];

    is_ms_pair(nw_letter, se_letter) && is_ms_pair(ne_letter, sw_letter)
}

/// Counts the occurrences of the word in the grid, in all eight directions.
/// The result is what trying every cell and every direction, with a bounds
/// check at every letter, would count.
pub fn count_xmas(grid: &Grid) -> (count: usize)
    requires
        grid.wf(),
    ensures
        count == grid.xmas_count(),
{
    let mut count: usize = 0;
    let n = grid.squares.len();
    let mut i: usize = 0;
    while i < n
        invariant
            grid.wf(),
            n == grid.squares@.len(),
            i <= n,
            count == grid.hits_before(i as nat),
            count <= 8 * i,
        decreases n - i,
    {
        proof {
            grid.lemma_feasible_directions_suffice(i as int);
        }
        if grid.squares[i] == Letter::X {
            let dirs = get_directions(grid, i);
            let ghost base = count;
            let mut found: usize = 0;
            let mut j: usize = 0;
            while j < dirs.len()
                invariant
                    grid.wf(),
                    i < grid.squares@.len(),
                    grid.squares@[i as int] == Letter::X,
                    dirs@ == grid.feasible_directions(i as int),
                    dirs@.len() <= 8,
                    j <= dirs@.len(),
                    found <= j,
                    found == grid.hits_in(i as int, dirs@.take(j as int)),
                decreases dirs@.len() - j,
            {
                let dir = dirs[j];
                proof {
                    assert(dirs@.take(j + 1).drop_last() =~= dirs@.take(j as int));
                    assert(dirs@.take(j + 1).last() == dir);
                    grid.lemma_feasible_member(i as int, j as int);
                }
                if is_xmas(grid, i, dir) {
                    found = found + 1;
                }
                j = j + 1;
            }
            assert(dirs@.take(j as int) =~= dirs@);
            count = count + found;
        }
        i = i + 1;
    }
    count
}

/// Counts the crosses in the grid: each A off the border whose two diagonals
/// each hold an M and an S.
pub fn count_x_mas(grid: &Grid) -> (count: usize)
    requires
        grid.wf(),
    ensures
        count == grid.cross_count(),
{
    let mut count: usize = 0;
    let n = grid.squares.len();
    let mut i: usize = 0;
    while i < n
        invariant
            grid.wf(),
            n == grid.squares@.len(),
            i <= n,
            count == grid.crosses_before(i as nat),
            count <= i,
        decreases n - i,
    {
        proof {
            lemma_coords(i as int, grid.width as int, grid.height as int);
        }
        let x = i % grid.width;
        let y = i / grid.width;

        if x > 0 && x < grid.width - 1 && y > 0 && y < grid.height - 1 && grid.squares[i]
            == Letter::A && is_x_mas(grid, i) {
            count = count + 1;
        }
        i = i + 1;
    }
    count
}


/// Width of the grid that the rows make: the length of the first row.
pub open spec fn rows_width(rows: Seq<Vec<u8>>) -> nat {
    if rows.len() == 0 {
        0
    } else {
        rows[0]@.len()
    }
}

/// Row `y` is as long as the first row.
pub open spec fn row_fits(rows: Seq<Vec<u8>>, y: int) -> bool {
    rows[y]@.len() == rows_width(rows)
}

/// The first `n` bytes of row `y` are letters.
pub open spec fn row_letters(rows: Seq<Vec<u8>>, y: int, n: int) -> bool {
    forall|x: int| 0 <= x < n ==> (#[trigger] letter_of(rows[y]@[x])) is Some
}

/// Row `y` is as long as the first row and holds letters only.
pub open spec fn row_ok(rows: Seq<Vec<u8>>, y: int) -> bool {
    row_fits(rows, y) && row_letters(rows, y, rows[y]@.len() as int)
}

/// The first `n` rows are well formed.
pub open spec fn rows_ok(rows: Seq<Vec<u8>>, n: int) -> bool {
    forall|y: int| 0 <= y < n ==> #[trigger] row_ok(rows, y)
}

impl Grid {
    /// Builds the grid from its rows, each a line of ASCII letters. The rows
    /// are checked from the top; in a row the length is checked first, then
    /// the bytes from the left, and the first fault found is reported.
    pub fn from_rows(rows: &Vec<Vec<u8>>) -> (r: Result<Grid, GridError>)
        ensures
            match r {
                Ok(g) => {
                    &&& rows_ok(rows@, rows@.len() as int)
                    &&& g.wf()
                    &&& g.height == rows@.len()
                    &&& g.width == rows_width(rows@)
                    &&& forall|x: int, y: int|
                        g.in_bounds(x, y) ==> letter_of(#[trigger] rows@[y]@[x]) == Some(
                            g.at(x, y),
                        )
                },
                Err(GridError::RaggedRow { row }) => {
                    &&& row < rows@.len()
                    &&& rows_ok(rows@, row as int)
                    &&& !row_fits(rows@, row as int)
                },
                Err(GridError::InvalidLetter { row, col }) => {
                    &&& row < rows@.len()
                    &&& rows_ok(rows@, row as int)
                    &&& row_fits(rows@, row as int)
                    &&& col < rows@[row as int]@.len()
                    &&& row_letters(rows@, row as int, col as int)
                    &&& letter_of(rows@[row as int]@[col as int]) is None
                },
                Err(GridError::TooLarge) => {
                    &&& rows_ok(rows@, rows@.len() as int)
                    &&& rows@.len() * rows_width(rows@) > usize::MAX / 8
                },
            },
    {
        let height = rows.len();
        let width = if height == 0 {
            0
        } else {
            rows[0].len()
        };
        let mut squares: Vec<Letter> = Vec::new();
        let mut y: usize = 0;
        while y < height
            invariant
                height == rows@.len(),
                width == rows_width(rows@),
                y <= height,
                rows_ok(rows@, y as int),
                squares@.len() == y * width,
                forall|k: int|
                    0 <= k < squares@.len() ==> letter_of(
                        rows@[k / (width as int)]@[k % (width as int)],
                    ) == Some(#[trigger] squares@[k]),
            decreases height - y,
        {
            let row = &rows[y];
            if row.len() != width {
                return Err(GridError::RaggedRow { row: y });
            }
            let mut x: usize = 0;
            while x < width
                invariant
                    height == rows@.len(),
                    width == rows_width(rows@),
                    y < height,
                    row@ == rows@[y as int]@,
                    row@.len() == width,
                    x <= width,
                    rows_ok(rows@, y as int),
                    row_letters(rows@, y as int, x as int),
                    squares@.len() == y * width + x,
                    forall|k: int|
                        0 <= k < squares@.len() ==> letter_of(
                            rows@[k / (width as int)]@[k % (width as int)],
                        ) == Some(#[trigger] squares@[k]),
                decreases width - x,
            {
                match Letter::new(row[x]) {
                    Some(letter) => {
                        proof {
                            lemma_index(x as int, y as int, width as int, height as int);
                        }
                        squares.push(letter);
                    },
                    None => {
                        return Err(GridError::InvalidLetter { row: y, col: x });
                    },
                }
                x = x + 1;
            }
            assert(row_ok(rows@, y as int));
            assert((y + 1) * width == y * width + width) by (nonlinear_arith);
            y = y + 1;
        }
        assert(height * width == width * height) by (nonlinear_arith);
        if squares.len() > usize::MAX / 8 {
            return Err(GridError::TooLarge);
        }
        let g = Grid { width, height, squares };
        assert forall|x: int, y: int| g.in_bounds(x, y) implies letter_of(
            #[trigger] rows@[y]@[x],
        ) == Some(g.at(x, y)) by {
            lemma_index(x, y, width as int, height as int);
        }
        Ok(g)
    }
}

} // verus!
