//! Word search on a letter grid: occurrences of `XMAS` in the eight
//! directions, and of two crossing `MAS` around an `A`.
use vstd::prelude::*;

verus! {

/// The grid holds `ch` at row `r`, column `c`.
pub open spec fn cell_is(g: Seq<Vec<char>>, r: int, c: int, ch: char) -> bool {
    0 <= r < g.len() && 0 <= c < g[r]@.len() && g[r]@[c] == ch
}

/// `XMAS` is written from `(r, c)` in the direction `(dr, dc)`.
pub open spec fn word_at(g: Seq<Vec<char>>, r: int, c: int, dr: int, dc: int) -> bool {
    &&& cell_is(g, r, c, 'X')
    &&& cell_is(g, r + dr, c + dc, 'M')
    &&& cell_is(g, r + 2 * dr, c + 2 * dc, 'A')
    &&& cell_is(g, r + 3 * dr, c + 3 * dc, 'S')
}

pub open spec fn one_if(b: bool) -> int {
    if b {
        1
    } else {
        0
    }
}

/// Number of diagonal directions in which `XMAS` starts at `(r, c)`.
pub open spec fn diagonal_words(g: Seq<Vec<char>>, r: int, c: int) -> int {
    one_if(word_at(g, r, c, -1, -1)) + one_if(word_at(g, r, c, 1, -1)) + one_if(word_at(g, r, c, -1, 1))
        + one_if(word_at(g, r, c, 1, 1))
}

/// Number of directions in which `XMAS` starts at `(r, c)`.
pub open spec fn words_at(g: Seq<Vec<char>>, r: int, c: int) -> int {
    one_if(word_at(g, r, c, -1, 0)) + one_if(word_at(g, r, c, 1, 0)) + one_if(word_at(g, r, c, 0, -1))
        + one_if(word_at(g, r, c, 0, 1)) + diagonal_words(g, r, c)
}

/// The corners around `(r, c)` hold `M` at `m1`, `m2` and `S` at the
/// opposite corners, given as row and column offsets.
pub open spec fn corners(g: Seq<Vec<char>>, r: int, c: int, m1: (int, int), m2: (int, int), s1: (int, int), s2: (int, int)) -> bool {
    &&& cell_is(g, r + m1.0, c + m1.1, 'M')
    &&& cell_is(g, r + m2.0, c + m2.1, 'M')
    &&& cell_is(g, r + s1.0, c + s1.1, 'S')
    &&& cell_is(g, r + s2.0, c + s2.1, 'S')
}

pub open spec fn m_on_top(g: Seq<Vec<char>>, r: int, c: int) -> bool {
    corners(g, r, c, (-1, -1), (-1, 1), (1, -1), (1, 1))
}

pub open spec fn m_on_right(g: Seq<Vec<char>>, r: int, c: int) -> bool {
    corners(g, r, c, (-1, 1), (1, 1), (-1, -1), (1, -1))
}

pub open spec fn m_on_bottom(g: Seq<Vec<char>>, r: int, c: int) -> bool {
    corners(g, r, c, (1, -1), (1, 1), (-1, -1), (-1, 1))
}

pub open spec fn m_on_left(g: Seq<Vec<char>>, r: int, c: int) -> bool {
    corners(g, r, c, (-1, -1), (1, -1), (-1, 1), (1, 1))
}

/// Two `MAS` cross at `(r, c)`.
pub open spec fn cross_at(g: Seq<Vec<char>>, r: int, c: int) -> bool {
    cell_is(g, r, c, 'A') && (m_on_top(g, r, c) || m_on_right(g, r, c) || m_on_bottom(g, r, c) || m_on_left(g, r, c))
}

/// Sum of `words_at` over the first `n` cells of row `r`.
pub open spec fn words_in_row(g: Seq<Vec<char>>, r: int, n: int) -> int
    decreases n,
{
    if n <= 0 {
        0
    } else {
        words_in_row(g, r, n - 1) + words_at(g, r, n - 1)
    }
}

/// Sum of `words_at` over the first `m` rows, `cols` cells each.
pub open spec fn words_in_grid(g: Seq<Vec<char>>, m: int, cols: int) -> int
    decreases m,
{
    if m <= 0 {
        0
    } else {
        words_in_grid(g, m - 1, cols) + words_in_row(g, m - 1, cols)
    }
}

/// Number of crosses among the first `n` cells of row `r`.
pub open spec fn crosses_in_row(g: Seq<Vec<char>>, r: int, n: int) -> int
    decreases n,
{
    if n <= 0 {
        0
    } else {
        crosses_in_row(g, r, n - 1) + one_if(cross_at(g, r, n - 1))
    }
}

/// Number of crosses in the first `m` rows, `cols` cells each.
pub open spec fn crosses_in_grid(g: Seq<Vec<char>>, m: int, cols: int) -> int
    decreases m,
{
    if m <= 0 {
        0
    } else {
        crosses_in_grid(g, m - 1, cols) + crosses_in_row(g, m - 1, cols)
    }
}

proof fn lemma_words_in_row_bounds(g: Seq<Vec<char>>, r: int, n: int)
    requires
        0 <= n,
    ensures
        0 <= words_in_row(g, r, n) <= 8 * n,
    decreases n,
{
    if n > 0 {
        lemma_words_in_row_bounds(g, r, n - 1);
    }
}

proof fn lemma_words_in_row_monotone(g: Seq<Vec<char>>, r: int, a: int, b: int)
    requires
        0 <= a <= b,
    ensures
        words_in_row(g, r, a) <= words_in_row(g, r, b),
    decreases b,
{
    if b > a {
        lemma_words_in_row_monotone(g, r, a, b - 1);
    }
}

proof fn lemma_crosses_in_row_monotone(g: Seq<Vec<char>>, r: int, a: int, b: int)
    requires
        0 <= a <= b,
    ensures
        crosses_in_row(g, r, a) <= crosses_in_row(g, r, b),
    decreases b,
{
    if b > a {
        lemma_crosses_in_row_monotone(g, r, a, b - 1);
    }
}

proof fn lemma_words_in_grid_bounds(g: Seq<Vec<char>>, m: int, cols: int)
    requires
        0 <= m,
        0 <= cols,
    ensures
        0 <= words_in_grid(g, m, cols) <= 8 * m * cols,
    decreases m,
{
    if m > 0 {
        lemma_words_in_grid_bounds(g, m - 1, cols);
        lemma_words_in_row_bounds(g, m - 1, cols);
        assert(8 * (m - 1) * cols + 8 * cols == 8 * m * cols) by (nonlinear_arith);
    }
}

proof fn lemma_crosses_in_row_bounds(g: Seq<Vec<char>>, r: int, n: int)
    requires
        0 <= n,
    ensures
        0 <= crosses_in_row(g, r, n) <= n,
    decreases n,
{
    if n > 0 {
        lemma_crosses_in_row_bounds(g, r, n - 1);
    }
}

proof fn lemma_crosses_in_grid_bounds(g: Seq<Vec<char>>, m: int, cols: int)
    requires
        0 <= m,
        0 <= cols,
    ensures
        0 <= crosses_in_grid(g, m, cols) <= m * cols,
    decreases m,
{
    if m > 0 {
        lemma_crosses_in_grid_bounds(g, m - 1, cols);
        lemma_crosses_in_row_bounds(g, m - 1, cols);
        assert((m - 1) * cols + cols == m * cols) by (nonlinear_arith);
    }
}

/// A letter grid of `lines` rows and `columns` columns.
pub struct DataSet {
    pub data: Vec<Vec<char>>,
    pub lines: usize,
    pub columns: usize,
}

impl DataSet {
    /// Every row has `columns` letters and there are `lines` rows.
    pub open spec fn wf(&self) -> bool {
        &&& self.data@.len() == self.lines
        &&& forall|r: int| 0 <= r < self.lines ==> (#[trigger] self.data@[r])@.len() == self.columns
    }

    /// Takes the rows of a grid whose rows all have the length of the first.
    pub fn from_rows(data: Vec<Vec<char>>) -> (r: Option<DataSet>)
        ensures
            r is Some <==> forall|i: int| 0 <= i < data@.len() ==> (#[trigger] data@[i])@.len() == data@[0]@.len(),
            r matches Some(d) ==> d.wf() && d.data@ == data@,
    {
        let lines = data.len();
        if lines == 0 {
            return Some(DataSet { data, lines: 0, columns: 0 });
        }
        let columns = data[0].len();
        let mut i: usize = 0;
        while i < lines
            invariant
                lines == data@.len(),
                lines > 0,
                columns == data@[0]@.len(),
                i <= lines,
                forall|k: int| 0 <= k < i ==> (#[trigger] data@[k])@.len() == columns,
            decreases lines - i,
        {
            if data[i].len() != columns {
                return None;
            }
            i += 1;
        }
        Some(DataSet { data, lines, columns })
    }

    /// Whether the grid holds `ch` at `(r, c)`; false outside the grid.
    fn at(&self, r: usize, c: usize, ch: char) -> (b: bool)
        requires
            self.wf(),
        ensures
            b == cell_is(self.data@, r as int, c as int, ch),
    {
        r < self.lines && c < self.columns && self.data[r][c] == ch
    }

    /// Number of times `XMAS` is written in any of the eight directions.
    #[allow(non_snake_case)]
    pub fn bruteforce_count_XMAS(&self) -> (r: u32)
        requires
            self.wf(),
            8 * self.lines * self.columns <= u32::MAX,
        ensures
            r == words_in_grid(self.data@, self.lines as int, self.columns as int),
    {
        let mut ret: u32 = 0;
        let mut i: usize = 0;
        while i < self.lines
            invariant
                self.wf(),
                8 * self.lines * self.columns <= u32::MAX,
                i <= self.lines,
                ret == words_in_grid(self.data@, i as int, self.columns as int),
            decreases self.lines - i,
        {
            let mut j: usize = 0;
            while j < self.columns
                invariant
                    self.wf(),
                    8 * self.lines * self.columns <= u32::MAX,
                    i < self.lines,
                    j <= self.columns,
                    ret == words_in_grid(self.data@, i as int, self.columns as int)
                        + words_in_row(self.data@, i as int, j as int),
                decreases self.columns - j,
            {
                proof {
                    lemma_words_in_grid_bounds(self.data@, i + 1, self.columns as int);
                    lemma_words_in_row_bounds(self.data@, i as int, j + 1);
                    lemma_words_in_row_bounds(self.data@, i as int, self.columns as int);
                    lemma_words_in_row_monotone(self.data@, i as int, j + 1, self.columns as int);
                    assert(8 * (i + 1) * self.columns <= 8 * self.lines * self.columns) by (nonlinear_arith)
                        requires
                            i + 1 <= self.lines,
                    ;
                }
                if self.data[i][j] == 'X' {
                    let mut here: u32 = 0;
                    if self.up_check(i, j) {
                        here += 1;
                    }
                    if self.down_check(i, j) {
                        here += 1;
                    }
                    if self.left_check(i, j) {
                        here += 1;
                    }
                    if self.right_check(i, j) {
                        here += 1;
                    }
                    here += self.diagonal_check(i, j);
                    assert(here == words_at(self.data@, i as int, j as int));
                    ret += here;
                } else {
                    assert(words_at(self.data@, i as int, j as int) == 0);
                }
                j += 1;
            }
            i += 1;
        }
        ret
    }

    /// Number of `A` around which two `MAS` cross.
    #[allow(non_snake_case)]
    pub fn bruteforce_count_cross_MAS(&self) -> (r: u32)
        requires
            self.wf(),
            self.lines * self.columns <= u32::MAX,
        ensures
            r == crosses_in_grid(self.data@, self.lines as int, self.columns as int),
    {
        let mut ret: u32 = 0;
        let mut i: usize = 0;
        while i < self.lines
            invariant
                self.wf(),
                self.lines * self.columns <= u32::MAX,
                i <= self.lines,
                ret == crosses_in_grid(self.data@, i as int, self.columns as int),
            decreases self.lines - i,
        {
            let mut j: usize = 0;
            while j < self.columns
                invariant
                    self.wf(),
                    self.lines * self.columns <= u32::MAX,
                    i < self.lines,
                    j <= self.columns,
                    ret == crosses_in_grid(self.data@, i as int, self.columns as int)
                        + crosses_in_row(self.data@, i as int, j as int),
                decreases self.columns - j,
            {
                proof {
                    lemma_crosses_in_grid_bounds(self.data@, i + 1, self.columns as int);
                    lemma_crosses_in_row_bounds(self.data@, i as int, j + 1);
                    lemma_crosses_in_row_bounds(self.data@, i as int, self.columns as int);
                    lemma_crosses_in_row_monotone(self.data@, i as int, j + 1, self.columns as int);
                    assert((i + 1) * self.columns <= self.lines * self.columns) by (nonlinear_arith)
                        requires
                            i + 1 <= self.lines,
                    ;
                }
                let inside = 1 <= i && i + 1 < self.lines && 1 <= j && j + 1 < self.columns;
                if inside && self.data[i][j] == 'A' && (self.check_M_on_top_left_right(i, j)
                    || self.check_M_on_right(i, j) || self.check_M_on_bottom_left_right(i, j)
                    || self.check_M_on_left(i, j)) {
                    ret += 1;
                }
                j += 1;
            }
            i += 1;
        }
        ret
    }

    /// `M` on the two upper corners of `(r, c)`, `S` on the two lower ones.
    #[allow(non_snake_case)]
    pub fn check_M_on_top_left_right(&self, r: usize, c: usize) -> (b: bool)
        requires
            self.wf(),
            1 <= r && r + 1 < self.lines,
            1 <= c && c + 1 < self.columns,
        ensures
            b == m_on_top(self.data@, r as int, c as int),
    {
        self.data[r - 1][c - 1] == 'M' && self.data[r - 1][c + 1] == 'M'
            && self.data[r + 1][c - 1] == 'S' && self.data[r + 1][c + 1] == 'S'
    }

    /// `M` on the two right corners of `(r, c)`, `S` on the two left ones.
    #[allow(non_snake_case)]
    pub fn check_M_on_right(&self, r: usize, c: usize) -> (b: bool)
        requires
            self.wf(),
            1 <= r && r + 1 < self.lines,
            1 <= c && c + 1 < self.columns,
        ensures
            b == m_on_right(self.data@, r as int, c as int),
    {
        self.data[r - 1][c + 1] == 'M' && self.data[r + 1][c + 1] == 'M'
            && self.data[r - 1][c - 1] == 'S' && self.data[r + 1][c - 1] == 'S'
    }

    /// `M` on the two lower corners of `(r, c)`, `S` on the two upper ones.
    #[allow(non_snake_case)]
    pub fn check_M_on_bottom_left_right(&self, r: usize, c: usize) -> (b: bool)
        requires
            self.wf(),
            1 <= r && r + 1 < self.lines,
            1 <= c && c + 1 < self.columns,
        ensures
            b == m_on_bottom(self.data@, r as int, c as int),
    {
        self.data[r + 1][c - 1] == 'M' && self.data[r + 1][c + 1] == 'M'
            && self.data[r - 1][c - 1] == 'S' && self.data[r - 1][c + 1] == 'S'
    }

    /// `M` on the two left corners of `(r, c)`, `S` on the two right ones.
    #[allow(non_snake_case)]
    pub fn check_M_on_left(&self, r: usize, c: usize) -> (b: bool)
        requires
            self.wf(),
            1 <= r && r + 1 < self.lines,
            1 <= c && c + 1 < self.columns,
        ensures
            b == m_on_left(self.data@, r as int, c as int),
    {
        self.data[r - 1][c - 1] == 'M' && self.data[r + 1][c - 1] == 'M'
            && self.data[r - 1][c + 1] == 'S' && self.data[r + 1][c + 1] == 'S'
    }

    /// `XMAS` read upward from `(r, c)`.
    pub fn up_check(&self, r: usize, c: usize) -> (b: bool)
        requires
            self.wf(),
            r < self.lines,
            c < self.columns,
        ensures
            b == word_at(self.data@, r as int, c as int, -1, 0),
    {
        r >= 3 && self.at(r, c, 'X') && self.at(r - 1, c, 'M') && self.at(r - 2, c, 'A') && self.at(r - 3, c, 'S')
    }

    /// `XMAS` read downward from `(r, c)`.
    pub fn down_check(&self, r: usize, c: usize) -> (b: bool)
        requires
            self.wf(),
            r < self.lines,
            c < self.columns,
        ensures
            b == word_at(self.data@, r as int, c as int, 1, 0),
    {
        3 < self.lines - r && self.at(r, c, 'X') && self.at(r + 1, c, 'M') && self.at(r + 2, c, 'A')
            && self.at(r + 3, c, 'S')
    }

    /// `XMAS` read leftward from `(r, c)`.
    pub fn left_check(&self, r: usize, c: usize) -> (b: bool)
        requires
            self.wf(),
            r < self.lines,
            c < self.columns,
        ensures
            b == word_at(self.data@, r as int, c as int, 0, -1),
    {
        c >= 3 && self.at(r, c, 'X') && self.at(r, c - 1, 'M') && self.at(r, c - 2, 'A') && self.at(r, c - 3, 'S')
    }

    /// `XMAS` read rightward from `(r, c)`.
    pub fn right_check(&self, r: usize, c: usize) -> (b: bool)
        requires
            self.wf(),
            r < self.lines,
            c < self.columns,
        ensures
            b == word_at(self.data@, r as int, c as int, 0, 1),
    {
        3 < self.columns - c && self.at(r, c, 'X') && self.at(r, c + 1, 'M') && self.at(r, c + 2, 'A')
            && self.at(r, c + 3, 'S')
    }

    /// Number of diagonal directions in which `XMAS` is read from `(r, c)`.
    pub fn diagonal_check(&self, r: usize, c: usize) -> (n: u32)
        requires
            self.wf(),
            r < self.lines,
            c < self.columns,
        ensures
            n == diagonal_words(self.data@, r as int, c as int),
            n <= 4,
    {
        let mut ret: u32 = 0;
        if c >= 3 && r >= 3 && self.at(r, c, 'X') && self.at(r - 1, c - 1, 'M') && self.at(r - 2, c - 2, 'A')
            && self.at(r - 3, c - 3, 'S') {
            ret += 1;
        }
        if c >= 3 && 3 < self.lines - r && self.at(r, c, 'X') && self.at(r + 1, c - 1, 'M')
            && self.at(r + 2, c - 2, 'A') && self.at(r + 3, c - 3, 'S') {
            ret += 1;
        }
        if 3 < self.columns - c && r >= 3 && self.at(r, c, 'X') && self.at(r - 1, c + 1, 'M')
            && self.at(r - 2, c + 2, 'A') && self.at(r - 3, c + 3, 'S') {
            ret += 1;
        }
        if 3 < self.columns - c && 3 < self.lines - r && self.at(r, c, 'X') && self.at(r + 1, c + 1, 'M')
            && self.at(r + 2, c + 2, 'A') && self.at(r + 3, c + 3, 'S') {
            ret += 1;
        }
        ret
    }
}

} // verus!
