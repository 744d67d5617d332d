//! A robot pushing boxes around a warehouse: each move shifts the robot and
//! the row of boxes in front of it by one cell, where a free cell lies
//! before the next wall.
use vstd::prelude::*;

verus! {

/// A move of the robot.
#[derive(Clone, Copy, Debug, PartialEq, Eq, Structural)]
pub enum Direction {
    Up,
    Down,
    Left,
    Right,
}

impl Direction {
    /// The move that an arrow character stands for.
    pub fn from_char(value: char) -> (r: Option<Direction>)
        ensures
            r == (if value == '^' { Some(Direction::Up) } else if value == '>' { Some(Direction::Right) }
                else if value == 'v' { Some(Direction::Down) } else if value == '<' { Some(Direction::Left) }
                else { None::<Direction> }),
    {
        if value == '^' {
            Some(Direction::Up)
        } else if value == '>' {
            Some(Direction::Right)
        } else if value == 'v' {
            Some(Direction::Down)
        } else if value == '<' {
            Some(Direction::Left)
        } else {
            None
        }
    }
}

pub open spec fn dr(d: Direction) -> int {
    match d {
        Direction::Up => -1,
        Direction::Down => 1,
        _ => 0,
    }
}

pub open spec fn dc(d: Direction) -> int {
    match d {
        Direction::Left => -1,
        Direction::Right => 1,
        _ => 0,
    }
}

/// The rows of the map as character sequences.
pub open spec fn grid_view(map: Seq<Vec<char>>) -> Seq<Seq<char>> {
    map.map_values(|row: Vec<char>| row@)
}

pub open spec fn inside(g: Seq<Seq<char>>, r: int, c: int) -> bool {
    0 <= r < g.len() && 0 <= c < g[r].len()
}

/// Cells left before the edge of the map, going from `(r, c)` in `d`.
pub open spec fn room_left(g: Seq<Seq<char>>, r: int, c: int, d: Direction) -> int {
    match d {
        Direction::Up => r + 1,
        Direction::Down => g.len() - r,
        Direction::Left => c + 1,
        Direction::Right => (if 0 <= r < g.len() { g[r].len() as int } else { 0 }) - c,
    }
}

/// Going from `(r, c)` in `d`, a free cell comes before a wall.
pub open spec fn free_ahead(g: Seq<Seq<char>>, r: int, c: int, d: Direction) -> bool
    decreases room_left(g, r, c, d),
{
    if !inside(g, r, c) {
        false
    } else if g[r][c] == '#' {
        false
    } else if g[r][c] == '.' {
        true
    } else {
        free_ahead(g, r + dr(d), c + dc(d), d)
    }
}

pub open spec fn put(g: Seq<Seq<char>>, r: int, c: int, x: char) -> Seq<Seq<char>> {
    g.update(r, g[r].update(c, x))
}

/// The map after `carried` is pushed into `(r, c)` in direction `d`: each
/// cell up to the first free one takes what stood before it.
pub open spec fn push(g: Seq<Seq<char>>, r: int, c: int, d: Direction, carried: char) -> Seq<Seq<char>>
    decreases room_left(g, r, c, d),
{
    if !inside(g, r, c) {
        g
    } else if g[r][c] == '#' {
        g
    } else if g[r][c] == '.' {
        put(g, r, c, carried)
    } else {
        push(put(g, r, c, carried), r + dr(d), c + dc(d), d, g[r][c])
    }
}

/// The map after the robot at `(r, c)` makes the given moves.
pub open spec fn after_moves(g: Seq<Seq<char>>, r: int, c: int, moves: Seq<Direction>) -> Seq<Seq<char>>
    decreases moves.len(),
{
    if moves.len() == 0 {
        g
    } else {
        let d = moves[0];
        if free_ahead(g, r, c, d) {
            after_moves(push(put(g, r, c, '.'), r + dr(d), c + dc(d), d, '@'), r + dr(d), c + dc(d), moves.drop_first())
        } else {
            after_moves(g, r, c, moves.drop_first())
        }
    }
}

/// Sum of `100 * r + c` over the boxes among the first `n` cells of row `r`.
pub open spec fn row_gps(g: Seq<Seq<char>>, r: int, n: int) -> int
    decreases n,
{
    if n <= 0 {
        0
    } else {
        row_gps(g, r, n - 1) + if g[r][n - 1] == 'O' { 100 * r + (n - 1) } else { 0 }
    }
}

/// Sum of `100 * r + c` over the boxes in the first `m` rows.
pub open spec fn grid_gps(g: Seq<Seq<char>>, m: int) -> int
    decreases m,
{
    if m <= 0 {
        0
    } else {
        grid_gps(g, m - 1) + row_gps(g, m - 1, g[m - 1].len() as int)
    }
}

proof fn lemma_row_gps_monotone(g: Seq<Seq<char>>, r: int, i: int, j: int)
    requires
        0 <= r,
        0 <= i <= j,
    ensures
        0 <= row_gps(g, r, i) <= row_gps(g, r, j),
    decreases j,
{
    if j > i {
        lemma_row_gps_monotone(g, r, i, j - 1);
    } else if i > 0 {
        lemma_row_gps_monotone(g, r, i - 1, i - 1);
    }
}

proof fn lemma_grid_gps_monotone(g: Seq<Seq<char>>, i: int, j: int)
    requires
        0 <= i <= j <= g.len(),
    ensures
        0 <= grid_gps(g, i) <= grid_gps(g, j),
    decreases j,
{
    if j > i {
        lemma_grid_gps_monotone(g, i, j - 1);
        lemma_row_gps_monotone(g, j - 1, 0, g[j - 1].len() as int);
    } else if i > 0 {
        lemma_grid_gps_monotone(g, i - 1, i - 1);
        lemma_row_gps_monotone(g, i - 1, 0, g[i - 1].len() as int);
    }
}

/// The map fits the robot's 32-bit coordinates.
pub open spec fn map_fits(map: Seq<Vec<char>>) -> bool {
    &&& map.len() < i32::MAX
    &&& forall|r: int| 0 <= r < map.len() ==> (#[trigger] map[r])@.len() < i32::MAX
}

fn cell(map: &Vec<Vec<char>>, row: i32, col: i32) -> (r: Option<char>)
    ensures
        r == (if inside(grid_view(map@), row as int, col as int) {
            Some(grid_view(map@)[row as int][col as int])
        } else {
            None::<char>
        }),
{
    if row >= 0 && (row as usize) < map.len() && col >= 0 && (col as usize) < map[row as usize].len() {
        Some(map[row as usize][col as usize])
    } else {
        None
    }
}

/// The warehouse map, the robot's moves and its starting position.
pub struct Problem {
    pub map: Vec<Vec<char>>,
    pub moves: Vec<Direction>,
    pub position: (i32, i32),
    pub height: i32,
    pub width: i32,
}

impl Problem {
    /// Whether a move from `(row, col)` in `direction` finds a free cell
    /// before the next wall.
    pub fn can_move(map: &Vec<Vec<char>>, row: i32, col: i32, direction: Direction) -> (b: bool)
        requires
            map_fits(map@),
            -1 <= row <= map@.len(),
            -1 <= col < i32::MAX,
        ensures
            b == free_ahead(grid_view(map@), row as int, col as int, direction),
    {
        let ghost g = grid_view(map@);
        let mut r = row;
        let mut c = col;
        loop
            invariant
                map_fits(map@),
                g == grid_view(map@),
                -1 <= r <= map@.len(),
                -1 <= c < i32::MAX,
                free_ahead(g, r as int, c as int, direction) == free_ahead(g, row as int, col as int, direction),
            decreases room_left(g, r as int, c as int, direction),
        {
            match cell(map, r, c) {
                None => return false,
                Some(ch) => {
                    if ch == '#' {
                        return false;
                    }
                    if ch == '.' {
                        return true;
                    }
                },
            }
            assert(map@[r as int]@.len() < i32::MAX);
            match direction {
                Direction::Up => r -= 1,
                Direction::Right => c += 1,
                Direction::Down => r += 1,
                Direction::Left => c -= 1,
            }
        }
    }

    /// Pushes the robot into `(row, col)` in `direction`, shifting the row of
    /// boxes there up to the first free cell.
    pub fn change_map(map: &mut Vec<Vec<char>>, row: i32, col: i32, direction: Direction)
        requires
            map_fits(old(map)@),
            -1 <= row <= old(map)@.len(),
            -1 <= col < i32::MAX,
        ensures
            grid_view(final(map)@) == push(grid_view(old(map)@), row as int, col as int, direction, '@'),
            map_fits(final(map)@),
            final(map)@.len() == old(map)@.len(),
            forall|k: int| 0 <= k < old(map)@.len() ==> (#[trigger] final(map)@[k])@.len() == old(map)@[k]@.len(),
    {
        let ghost target = push(grid_view(map@), row as int, col as int, direction, '@');
        let ghost n = map@.len();
        let mut r = row;
        let mut c = col;
        let mut prev = '@';
        loop
            invariant
                map_fits(map@),
                map@.len() == n,
                n == old(map)@.len(),
                target == push(grid_view(old(map)@), row as int, col as int, direction, '@'),
                forall|k: int| 0 <= k < n ==> (#[trigger] map@[k])@.len() == old(map)@[k]@.len(),
                -1 <= r <= map@.len(),
                -1 <= c < i32::MAX,
                push(grid_view(map@), r as int, c as int, direction, prev) == target,
            decreases room_left(grid_view(map@), r as int, c as int, direction),
        {
            let ghost g = grid_view(map@);
            match cell(map, r, c) {
                None => {
                    return;
                },
                Some(ch) => {
                    if ch == '#' {
                        return;
                    }
                    assert(map@[r as int]@.len() < i32::MAX);
                    map[r as usize][c as usize] = prev;
                    assert(grid_view(map@) =~= put(g, r as int, c as int, prev));
                    if ch == '.' {
                        return;
                    }
                    prev = ch;
                },
            }
            match direction {
                Direction::Up => r -= 1,
                Direction::Right => c += 1,
                Direction::Down => r += 1,
                Direction::Left => c -= 1,
            }
        }
    }

    /// Takes a map and the moves; the robot starts at the last `@` of the
    /// map (at `(0, 0)` where there is none).
    pub fn from_parts(map: Vec<Vec<char>>, moves: Vec<Direction>) -> (r: Option<Problem>)
        ensures
            r is Some <==> map_fits(map@) && map@.len() > 0,
            r matches Some(p) ==> {
                &&& p.map@ == map@
                &&& p.moves@ == moves@
                &&& p.height == map@.len()
                &&& p.width == map@[0]@.len()
                &&& p.position == (0i32, 0i32) || inside(grid_view(map@), p.position.0 as int, p.position.1 as int)
                    && grid_view(map@)[p.position.0 as int][p.position.1 as int] == '@'
            },
    {
        if map.len() == 0 || map.len() >= i32::MAX as usize {
            return None;
        }
        let mut k: usize = 0;
        let mut position: (i32, i32) = (0, 0);
        while k < map.len()
            invariant
                0 < map@.len() < i32::MAX,
                k <= map.len(),
                forall|m: int| 0 <= m < k ==> (#[trigger] map@[m])@.len() < i32::MAX,
                position == (0i32, 0i32) || inside(grid_view(map@), position.0 as int, position.1 as int)
                    && grid_view(map@)[position.0 as int][position.1 as int] == '@',
            decreases map.len() - k,
        {
            if map[k].len() >= i32::MAX as usize {
                return None;
            }
            let mut j: usize = 0;
            while j < map[k].len()
                invariant
                    0 < map@.len() < i32::MAX,
                    k < map.len(),
                    map@[k as int]@.len() < i32::MAX,
                    j <= map@[k as int]@.len(),
                    position == (0i32, 0i32) || inside(grid_view(map@), position.0 as int, position.1 as int)
                        && grid_view(map@)[position.0 as int][position.1 as int] == '@',
                decreases map@[k as int]@.len() - j,
            {
                if map[k][j] == '@' {
                    position = (k as i32, j as i32);
                }
                j += 1;
            }
            k += 1;
        }
        let height = map.len() as i32;
        let width = map[0].len() as i32;
        Some(Problem { map, moves, position, height, width })
    }

    /// Makes every move of the robot from its starting position.
    pub fn moving(&mut self)
        requires
            map_fits(old(self).map@),
            inside(grid_view(old(self).map@), old(self).position.0 as int, old(self).position.1 as int),
        ensures
            grid_view(final(self).map@) == after_moves(
                grid_view(old(self).map@),
                old(self).position.0 as int,
                old(self).position.1 as int,
                old(self).moves@,
            ),
            final(self).moves@ == old(self).moves@,
            final(self).position == old(self).position,
    {
        let ghost target = after_moves(grid_view(self.map@), self.position.0 as int, self.position.1 as int, self.moves@);
        let mut row = self.position.0;
        let mut col = self.position.1;
        let mut k: usize = 0;
        assert(self.moves@.skip(0) =~= self.moves@);
        while k < self.moves.len()
            invariant
                map_fits(self.map@),
                k <= self.moves.len(),
                self.moves@ == old(self).moves@,
                self.position == old(self).position,
                -1 <= row <= self.map@.len(),
                -1 <= col < i32::MAX,
                after_moves(grid_view(self.map@), row as int, col as int, self.moves@.skip(k as int)) == target,
            decreases self.moves.len() - k,
        {
            let d = self.moves[k];
            assert(self.moves@.skip(k as int)[0] == d);
            assert(self.moves@.skip(k as int).drop_first() =~= self.moves@.skip(k + 1));
            if Problem::can_move(&self.map, row, col, d) {
                let ghost g = grid_view(self.map@);
                assert(inside(g, row as int, col as int));
                assert(self.map@[row as int]@.len() < i32::MAX);
                self.map[row as usize][col as usize] = '.';
                assert(grid_view(self.map@) =~= put(g, row as int, col as int, '.'));
                let (nr, nc) = match d {
                    Direction::Up => (row - 1, col),
                    Direction::Right => (row, col + 1),
                    Direction::Down => (row + 1, col),
                    Direction::Left => (row, col - 1),
                };
                Problem::change_map(&mut self.map, nr, nc, d);
                row = nr;
                col = nc;
            }
            k += 1;
        }
    }

    /// Sum of `100 * row + column` over the boxes; `None` where it does not
    /// fit in 64 bits.
    pub fn cal_coordinates(&self) -> (r: Option<u64>)
        requires
            map_fits(self.map@),
        ensures
            r is Some <==> grid_gps(grid_view(self.map@), self.map@.len() as int) <= u64::MAX,
            r matches Some(v) ==> v == grid_gps(grid_view(self.map@), self.map@.len() as int),
    {
        let ghost g = grid_view(self.map@);
        let mut ret: u64 = 0;
        let mut row: usize = 0;
        while row < self.map.len()
            invariant
                g == grid_view(self.map@),
                map_fits(self.map@),
                row <= self.map.len(),
                ret == grid_gps(g, row as int),
            decreases self.map.len() - row,
        {
            proof {
                lemma_grid_gps_monotone(g, row + 1, g.len() as int);
            }
            let mut col: usize = 0;
            while col < self.map[row].len()
                invariant
                    g == grid_view(self.map@),
                    map_fits(self.map@),
                    row < self.map.len(),
                    col <= g[row as int].len(),
                    grid_gps(g, row + 1) <= grid_gps(g, g.len() as int),
                    ret == grid_gps(g, row as int) + row_gps(g, row as int, col as int),
                decreases g[row as int].len() - col,
            {
                proof {
                    lemma_row_gps_monotone(g, row as int, col + 1, g[row as int].len() as int);
                    lemma_grid_gps_monotone(g, row as int, row as int);
                }
                if self.map[row][col] == 'O' {
                    let term = (row as u64) * 100 + col as u64;
                    ret = match ret.checked_add(term) {
                        Some(v) => v,
                        None => {
                            return None;
                        },
                    };
                }
                col += 1;
            }
            row += 1;
        }
        Some(ret)
    }
}

} // verus!
