//! A guard walking a lab map: straight ahead until an obstacle, then a
//! quarter turn to the right, until the guard leaves the map.
use vstd::prelude::*;
use std::collections::HashSet;
use crate::trails::lemma_new_members;

verus! {

/// The direction the guard faces.
#[derive(Clone, Copy, Debug, PartialEq, Eq, Structural)]
pub enum Direction {
    Up,
    Down,
    Left,
    Right,
}

pub open spec fn turn_right(d: Direction) -> Direction {
    match d {
        Direction::Up => Direction::Right,
        Direction::Right => Direction::Down,
        Direction::Down => Direction::Left,
        Direction::Left => Direction::Up,
    }
}

pub open spec fn ahead(r: int, c: int, d: Direction) -> (int, int) {
    match d {
        Direction::Up => (r - 1, c),
        Direction::Down => (r + 1, c),
        Direction::Left => (r, c - 1),
        Direction::Right => (r, c + 1),
    }
}

pub open spec fn on_grid(g: Seq<Seq<char>>, r: int, c: int) -> bool {
    0 <= r < g.len() && 0 <= c < g[r].len()
}

/// One move: turn right where an obstacle stands ahead, else step ahead
/// (possibly off the map). Off the map the guard stays put.
pub open spec fn step(g: Seq<Seq<char>>, s: (int, int, Direction)) -> (int, int, Direction) {
    if !on_grid(g, s.0, s.1) {
        s
    } else {
        let (nr, nc) = ahead(s.0, s.1, s.2);
        if on_grid(g, nr, nc) && g[nr][nc] == '#' {
            (s.0, s.1, turn_right(s.2))
        } else {
            (nr, nc, s.2)
        }
    }
}

/// The guard's state after `k` moves.
pub open spec fn walk(g: Seq<Seq<char>>, s: (int, int, Direction), k: nat) -> (int, int, Direction)
    decreases k,
{
    if k == 0 {
        s
    } else {
        step(g, walk(g, s, (k - 1) as nat))
    }
}

/// The guard has left the map within `k` moves.
pub open spec fn leaves_within(g: Seq<Seq<char>>, s: (int, int, Direction), k: nat) -> bool {
    !on_grid(g, walk(g, s, k).0, walk(g, s, k).1)
}

/// The rows of a map as character sequences.
pub open spec fn grid_of(map: Seq<Vec<char>>) -> Seq<Seq<char>> {
    map.map_values(|row: Vec<char>| row@)
}

pub open spec fn cell_key(r: int, c: int, w: int) -> u64 {
    (r * w + c) as u64
}

/// Keys of the cells the guard stands on within its first `k` states.
pub open spec fn visited(g: Seq<Seq<char>>, s: (int, int, Direction), k: nat, w: int) -> Set<u64>
    decreases k,
{
    let here = walk(g, s, k);
    let now = if on_grid(g, here.0, here.1) { set![cell_key(here.0, here.1, w)] } else { Set::empty() };
    if k == 0 {
        now
    } else {
        visited(g, s, (k - 1) as nat, w).union(now)
    }
}

proof fn lemma_off_map_stays(g: Seq<Seq<char>>, s: (int, int, Direction), k: nat, j: nat)
    requires
        k <= j,
        !on_grid(g, walk(g, s, k).0, walk(g, s, k).1),
    ensures
        walk(g, s, j) == walk(g, s, k),
    decreases j,
{
    if j > k {
        lemma_off_map_stays(g, s, k, (j - 1) as nat);
    }
}

proof fn lemma_visited_settles(g: Seq<Seq<char>>, s: (int, int, Direction), k: nat, j: nat, w: int)
    requires
        1 <= k <= j,
        !on_grid(g, walk(g, s, k).0, walk(g, s, k).1),
    ensures
        visited(g, s, j, w) == visited(g, s, (k - 1) as nat, w),
    decreases j,
{
    lemma_off_map_stays(g, s, k, j);
    if j > k {
        lemma_visited_settles(g, s, k, (j - 1) as nat, w);
    }
    assert(visited(g, s, j, w) =~= visited(g, s, (j - 1) as nat, w));
}

/// Moves after which a guard still on a map of `h` by `w` cells walks in
/// a loop: more than there are positions and facings.
pub open spec fn loop_bound(h: int, w: int) -> nat {
    (4 * h * w + 1) as nat
}

/// The guard is still on the map after `loop_bound` moves.
pub open spec fn trapped(g: Seq<Seq<char>>, s: (int, int, Direction), h: int, w: int) -> bool {
    !leaves_within(g, s, loop_bound(h, w))
}

/// The map with an obstacle on `(r, c)`.
pub open spec fn with_obstacle(g: Seq<Seq<char>>, r: int, c: int) -> Seq<Seq<char>> {
    g.update(r, g[r].update(c, '#'))
}

/// An obstacle may go on `(r, c)`: no obstacle stands there and the guard
/// does not start there.
pub open spec fn candidate(g: Seq<Seq<char>>, r: int, c: int) -> bool {
    g[r][c] != '#' && g[r][c] != '^'
}

/// Cells among the first `n` of row `r` where an obstacle traps the guard.
pub open spec fn traps_in_row(g: Seq<Seq<char>>, s: (int, int, Direction), h: int, w: int, r: int, n: int) -> int
    decreases n,
{
    if n <= 0 {
        0
    } else {
        traps_in_row(g, s, h, w, r, n - 1)
            + if candidate(g, r, n - 1) && trapped(with_obstacle(g, r, n - 1), s, h, w) { 1int } else { 0int }
    }
}

/// Cells of the first `m` rows where an obstacle traps the guard.
pub open spec fn traps_in_grid(g: Seq<Seq<char>>, s: (int, int, Direction), h: int, w: int, m: int) -> int
    decreases m,
{
    if m <= 0 {
        0
    } else {
        traps_in_grid(g, s, h, w, m - 1) + traps_in_row(g, s, h, w, m - 1, w)
    }
}

proof fn lemma_traps_row_bound(g: Seq<Seq<char>>, s: (int, int, Direction), h: int, w: int, r: int, n: int)
    requires
        0 <= n,
    ensures
        0 <= traps_in_row(g, s, h, w, r, n) <= n,
    decreases n,
{
    if n > 0 {
        lemma_traps_row_bound(g, s, h, w, r, n - 1);
    }
}

proof fn lemma_traps_grid_bound(g: Seq<Seq<char>>, s: (int, int, Direction), h: int, w: int, m: int)
    requires
        0 <= m,
        0 <= w,
    ensures
        0 <= traps_in_grid(g, s, h, w, m) <= m * w,
    decreases m,
{
    if m > 0 {
        lemma_traps_grid_bound(g, s, h, w, m - 1);
        lemma_traps_row_bound(g, s, h, w, m - 1, w);
        assert((m - 1) * w + w == m * w) by (nonlinear_arith);
    }
}

/// Largest map side the guard's arithmetic is made for.
pub const LAB_SIDE_MAX: usize = 32768;

/// Keys below `n`.
pub open spec fn keys_below(n: nat) -> Set<u64> {
    Set::new(|x: u64| x < n)
}

proof fn lemma_keys_below(n: nat)
    requires
        n <= u64::MAX,
    ensures
        keys_below(n).finite(),
        keys_below(n).len() == n,
    decreases n,
{
    if n == 0 {
        assert(keys_below(0) =~= Set::<u64>::empty());
    } else {
        lemma_keys_below((n - 1) as nat);
        assert(keys_below(n) =~= keys_below((n - 1) as nat).insert((n - 1) as u64));
    }
}

/// The cells the guard stands on are keyed below `h * w`: they are finitely
/// many, at most `h * w`.
proof fn lemma_visited_bounded(g: Seq<Seq<char>>, s: (int, int, Direction), k: nat, h: int, w: int)
    requires
        g.len() == h,
        0 < h <= LAB_SIDE_MAX,
        0 < w <= LAB_SIDE_MAX,
        forall|r: int| 0 <= r < h ==> (#[trigger] g[r]).len() == w,
    ensures
        visited(g, s, k, w).finite(),
        visited(g, s, k, w).len() <= h * w,
{
    assert(h * w <= LAB_SIDE_MAX * LAB_SIDE_MAX) by (nonlinear_arith)
        requires
            0 < h <= LAB_SIDE_MAX,
            0 < w <= LAB_SIDE_MAX,
    ;
    lemma_visited_keys(g, s, k, h, w);
    lemma_keys_below((h * w) as nat);
    vstd::set_lib::lemma_len_subset(visited(g, s, k, w), keys_below((h * w) as nat));
}

proof fn lemma_visited_keys(g: Seq<Seq<char>>, s: (int, int, Direction), k: nat, h: int, w: int)
    requires
        g.len() == h,
        0 < h <= LAB_SIDE_MAX,
        0 < w <= LAB_SIDE_MAX,
        forall|r: int| 0 <= r < h ==> (#[trigger] g[r]).len() == w,
    ensures
        visited(g, s, k, w).subset_of(keys_below((h * w) as nat)),
    decreases k,
{
    if k > 0 {
        lemma_visited_keys(g, s, (k - 1) as nat, h, w);
    }
    let here = walk(g, s, k);
    if on_grid(g, here.0, here.1) {
        assert(here.0 * w + here.1 < h * w) by (nonlinear_arith)
            requires
                0 <= here.0 < h,
                0 <= here.1 < w,
        ;
        assert(0 <= here.0 * w) by (nonlinear_arith)
            requires
                0 <= here.0,
                0 < w,
        ;
    }
}

/// A lab map, the guard's start and facing, and the cells it visited.
pub struct LabMap {
    pub map: Vec<Vec<char>>,
    pub visited: HashSet<u64>,
    pub start_point: (usize, usize),
    pub direction: Direction,
    pub height: usize,
    pub width: usize,
}

impl LabMap {
    /// The map is `height` rows of `width` cells, within range, and the
    /// guard starts on it.
    pub open spec fn wf(&self) -> bool {
        &&& 0 < self.height <= LAB_SIDE_MAX
        &&& 0 < self.width <= LAB_SIDE_MAX
        &&& self.map@.len() == self.height
        &&& forall|r: int| 0 <= r < self.height ==> (#[trigger] self.map@[r])@.len() == self.width
        &&& self.start_point.0 < self.height && self.start_point.1 < self.width
    }

    pub open spec fn start(&self) -> (int, int, Direction) {
        (self.start_point.0 as int, self.start_point.1 as int, self.direction)
    }

    /// Takes a map whose rows have equal length; the guard starts facing up
    /// on a `^` (the last row holding one; `(0, 0)` where there is none).
    pub fn from_rows(map: Vec<Vec<char>>) -> (r: Option<LabMap>)
        ensures
            r is Some <==> 0 < map@.len() <= LAB_SIDE_MAX && 0 < map@[0]@.len() <= LAB_SIDE_MAX
                && forall|k: int| 0 <= k < map@.len() ==> (#[trigger] map@[k])@.len() == map@[0]@.len(),
            r matches Some(m) ==> {
                &&& m.wf()
                &&& m.map@ == map@
                &&& m.direction == Direction::Up
                &&& m.visited@ == Set::<u64>::empty()
                &&& m.start_point == (0usize, 0usize) || map@[m.start_point.0 as int]@[m.start_point.1 as int] == '^'
            },
    {
        let h = map.len();
        if h == 0 || h > LAB_SIDE_MAX {
            return None;
        }
        let w = map[0].len();
        if w == 0 || w > LAB_SIDE_MAX {
            return None;
        }
        let mut start: (usize, usize) = (0, 0);
        let mut k: usize = 0;
        while k < h
            invariant
                h == map@.len(),
                w == map@[0]@.len(),
                0 < w,
                k <= h,
                forall|m: int| 0 <= m < k ==> (#[trigger] map@[m])@.len() == w,
                start.0 < h && start.1 < w,
                start == (0usize, 0usize) || map@[start.0 as int]@[start.1 as int] == '^',
            decreases h - k,
        {
            if map[k].len() != w {
                return None;
            }
            let mut j: usize = 0;
            while j < w
                invariant
                    h == map@.len(),
                    k < h,
                    map@[k as int]@.len() == w,
                    j <= w,
                    start.0 < h && start.1 < w,
                    start == (0usize, 0usize) || map@[start.0 as int]@[start.1 as int] == '^',
                decreases w - j,
            {
                if map[k][j] == '^' {
                    start = (k, j);
                    break;
                }
                j += 1;
            }
            k += 1;
        }
        Some(LabMap { map, visited: HashSet::new(), start_point: start, direction: Direction::Up, height: h, width: w })
    }

    /// The guard's next state from a state on the map.
    fn next_state(&self, r: usize, c: usize, d: Direction) -> (n: (i64, i64, Direction))
        requires
            self.wf(),
            r < self.height,
            c < self.width,
        ensures
            (n.0 as int, n.1 as int, n.2) == step(grid_of(self.map@), (r as int, c as int, d)),
            -1 <= n.0 <= self.height,
            -1 <= n.1 <= self.width,
    {
        let (nr, nc): (i64, i64) = match d {
            Direction::Up => (r as i64 - 1, c as i64),
            Direction::Down => (r as i64 + 1, c as i64),
            Direction::Left => (r as i64, c as i64 - 1),
            Direction::Right => (r as i64, c as i64 + 1),
        };
        if 0 <= nr && nr < self.height as i64 && 0 <= nc && nc < self.width as i64
            && self.map[nr as usize][nc as usize] == '#' {
            let t = match d {
                Direction::Up => Direction::Right,
                Direction::Right => Direction::Down,
                Direction::Down => Direction::Left,
                Direction::Left => Direction::Up,
            };
            (r as i64, c as i64, t)
        } else {
            (nr, nc, d)
        }
    }

    /// Walks the guard off the map, records the cells it stands on in
    /// `visited`, and returns how many there are.
    pub fn count_unique_position(&mut self) -> (r: usize)
        requires
            old(self).wf(),
            exists|n: nat| leaves_within(grid_of(old(self).map@), old(self).start(), n),
        ensures
            forall|n: nat| #[trigger] leaves_within(grid_of(old(self).map@), old(self).start(), n) ==> {
                let cells = visited(grid_of(old(self).map@), old(self).start(), n, old(self).width as int);
                &&& final(self).visited@ == old(self).visited@.union(cells)
                &&& r == cells.difference(old(self).visited@).len()
                &&& final(self).direction == walk(grid_of(old(self).map@), old(self).start(), n).2
            },
            old(self).visited@.finite() ==> r == final(self).visited@.len() - old(self).visited@.len(),
            final(self).map@ == old(self).map@,
            final(self).start_point == old(self).start_point,
            final(self).height == old(self).height && final(self).width == old(self).width,
    {
        broadcast use vstd::std_specs::hash::group_hash_axioms;
        let ghost g = grid_of(self.map@);
        let ghost s0 = self.start();
        let ghost w = self.width as int;
        let ghost h = self.height as int;
        let ghost seen0 = self.visited@;
        let ghost bound: nat = choose|n: nat| leaves_within(g, s0, n);
        let mut count: usize = 0;
        let mut r: i64 = self.start_point.0 as i64;
        let mut c: i64 = self.start_point.1 as i64;
        let mut d = self.direction;
        let ghost mut k: nat = 0;
        let ghost mut cur: Set<u64> = Set::empty();
        proof {
            assert(cur.difference(seen0) =~= Set::<u64>::empty());
            assert(self.visited@ =~= seen0.union(cur));
        }
        while 0 <= r && r < self.height as i64 && 0 <= c && c < self.width as i64
            invariant
                self.wf(),
                g == grid_of(self.map@),
                s0 == self.start(),
                w == self.width && h == self.height,
                self.start_point == old(self).start_point && self.direction == old(self).direction,
                self.height == old(self).height && self.width == old(self).width,
                self.map@ == old(self).map@,
                seen0 == old(self).visited@,
                leaves_within(g, s0, bound),
                (r as int, c as int, d) == walk(g, s0, k),
                -1 <= r <= self.height && -1 <= c <= self.width,
                k == 0 ==> cur == Set::<u64>::empty(),
                k > 0 ==> cur == visited(g, s0, (k - 1) as nat, w),
                cur.finite(),
                self.visited@ == seen0.union(cur),
                count == cur.difference(seen0).len(),
                k > 0 ==> on_grid(g, walk(g, s0, (k - 1) as nat).0, walk(g, s0, (k - 1) as nat).1),
                k <= bound,
            decreases bound - k,
        {
            proof {
                if k == bound {
                    assert(!on_grid(g, r as int, c as int));
                }
                assert(0 <= r as int * w <= LAB_SIDE_MAX * LAB_SIDE_MAX) by (nonlinear_arith)
                    requires
                        0 <= r < LAB_SIDE_MAX,
                        0 < w <= LAB_SIDE_MAX,
                ;
            }
            let key = (r as u64) * (self.width as u64) + (c as u64);
            let ghost next = cur.union(set![key]);
            proof {
                assert(next =~= visited(g, s0, k, w));
                lemma_new_members(cur, set![key], seen0);
                assert(seen0.union(cur) =~= self.visited@);
                lemma_visited_bounded(g, s0, k, h, w);
                vstd::set_lib::lemma_len_difference(next, seen0);
                if self.visited@.contains(key) {
                    assert(set![key].difference(self.visited@) =~= Set::<u64>::empty());
                } else {
                    assert(set![key].difference(self.visited@) =~= set![key]);
                }
                assert(h * w <= LAB_SIDE_MAX * LAB_SIDE_MAX) by (nonlinear_arith)
                    requires
                        0 < h <= LAB_SIDE_MAX,
                        0 < w <= LAB_SIDE_MAX,
                ;
            }
            if self.visited.insert(key) {
                count += 1;
            }
            proof {
                cur = next;
                assert(self.visited@ =~= seen0.union(cur));
            }
            let ghost on_now = walk(g, s0, k);
            assert(on_grid(g, on_now.0, on_now.1));
            let (nr, nc, nd) = self.next_state(r as usize, c as usize, d);
            r = nr;
            c = nc;
            d = nd;
            proof {
                k = k + 1;
                if k > bound {
                    lemma_off_map_stays(g, s0, bound, (k - 1) as nat);
                }
            }
        }
        self.direction = d;
        proof {
            assert(k >= 1);
            assert forall|n: nat| #[trigger] leaves_within(g, s0, n) implies {
                &&& self.visited@ == seen0.union(visited(g, s0, n, w))
                &&& count == visited(g, s0, n, w).difference(seen0).len()
                &&& self.direction == walk(g, s0, n).2
            } by {
                if n < k {
                    lemma_off_map_stays(g, s0, n, (k - 1) as nat);
                    assert(false);
                }
                lemma_visited_settles(g, s0, k, n, w);
                lemma_off_map_stays(g, s0, k, n);
            }
            if seen0.finite() {
                assert(seen0.union(cur) =~= seen0 + cur.difference(seen0));
                assert(seen0.disjoint(cur.difference(seen0)));
                vstd::set_lib::lemma_set_disjoint_lens(seen0, cur.difference(seen0));
            }
        }
        count
    }

    /// Whether the guard, from its start, is still on the map after
    /// `loop_bound` moves, and so walks in a loop. The guard's heading is
    /// left as it was where the walk stopped.
    pub fn is_loop(&mut self) -> (b: bool)
        requires
            old(self).wf(),
        ensures
            b == trapped(grid_of(old(self).map@), old(self).start(), old(self).height as int, old(self).width as int),
            final(self).map@ == old(self).map@,
            final(self).visited@ == old(self).visited@,
            final(self).start_point == old(self).start_point,
            final(self).direction == walk(grid_of(old(self).map@), old(self).start(),
                loop_bound(old(self).height as int, old(self).width as int)).2,
            !b ==> forall|n: nat| #[trigger] leaves_within(grid_of(old(self).map@), old(self).start(), n)
                ==> final(self).direction == walk(grid_of(old(self).map@), old(self).start(), n).2,
            final(self).height == old(self).height && final(self).width == old(self).width,
    {
        let ghost g = grid_of(self.map@);
        let ghost s0 = self.start();
        assert(4 * self.height * self.width + 1 <= 4 * LAB_SIDE_MAX * LAB_SIDE_MAX + 1) by (nonlinear_arith)
            requires
                0 < self.height <= LAB_SIDE_MAX,
                0 < self.width <= LAB_SIDE_MAX,
        ;
        let bound: u64 = 4 * (self.height as u64) * (self.width as u64) + 1;
        let mut r: i64 = self.start_point.0 as i64;
        let mut c: i64 = self.start_point.1 as i64;
        let mut d = self.direction;
        let mut k: u64 = 0;
        while k < bound && 0 <= r && r < self.height as i64 && 0 <= c && c < self.width as i64
            invariant
                self.wf(),
                g == grid_of(self.map@),
                s0 == self.start(),
                bound == loop_bound(self.height as int, self.width as int),
                k <= bound,
                (r as int, c as int, d) == walk(g, s0, k as nat),
                -1 <= r <= self.height && -1 <= c <= self.width,
            decreases bound - k,
        {
            let (nr, nc, nd) = self.next_state(r as usize, c as usize, d);
            r = nr;
            c = nc;
            d = nd;
            k += 1;
        }
        self.direction = d;
        if 0 <= r && r < self.height as i64 && 0 <= c && c < self.width as i64 {
            true
        } else {
            proof {
                lemma_off_map_stays(g, s0, k as nat, bound as nat);
                assert forall|n: nat| #[trigger] leaves_within(g, s0, n) implies self.direction == walk(g, s0, n).2 by {
                    if n < k {
                        lemma_off_map_stays(g, s0, n, k as nat);
                    } else {
                        lemma_off_map_stays(g, s0, k as nat, n);
                    }
                }
            }
            false
        }
    }

    /// Number of cells where one more obstacle makes the guard walk in a
    /// loop; the map is left as it was.
    pub fn count_possilbe_to_make_loop(&mut self) -> (n: u32)
        requires
            old(self).wf(),
            old(self).height * old(self).width <= u32::MAX,
        ensures
            n == traps_in_grid(grid_of(old(self).map@), old(self).start(), old(self).height as int,
                old(self).width as int, old(self).height as int),
            final(self).wf(),
            grid_of(final(self).map@) == grid_of(old(self).map@),
            final(self).visited@ == old(self).visited@,
            final(self).start_point == old(self).start_point,
            final(self).direction == old(self).direction,
            final(self).height == old(self).height && final(self).width == old(self).width,
    {
        let ghost g = grid_of(self.map@);
        let ghost s0 = self.start();
        let ghost (hh, ww) = (self.height as int, self.width as int);
        let mut ret: u32 = 0;
        let mut row: usize = 0;
        while row < self.height
            invariant
                self.wf(),
                self.height * self.width <= u32::MAX,
                g == grid_of(self.map@),
                g == grid_of(old(self).map@),
                self.visited@ == old(self).visited@,
                self.start_point == old(self).start_point && self.direction == old(self).direction,
                self.height == old(self).height && self.width == old(self).width,
                s0 == self.start(),
                hh == self.height && ww == self.width,
                row <= self.height,
                ret == traps_in_grid(g, s0, hh, ww, row as int),
            decreases self.height - row,
        {
            proof {
                lemma_traps_grid_bound(g, s0, hh, ww, row + 1);
                assert((row + 1) * ww <= hh * ww) by (nonlinear_arith)
                    requires
                        row + 1 <= hh,
                        0 <= ww,
                ;
            }
            let mut col: usize = 0;
            while col < self.width
                invariant
                    self.wf(),
                    self.height * self.width <= u32::MAX,
                    g == grid_of(self.map@),
                    g == grid_of(old(self).map@),
                    self.visited@ == old(self).visited@,
                    self.start_point == old(self).start_point && self.direction == old(self).direction,
                    self.height == old(self).height && self.width == old(self).width,
                    s0 == self.start(),
                    hh == self.height && ww == self.width,
                    row < self.height,
                    col <= self.width,
                    traps_in_grid(g, s0, hh, ww, row + 1) <= hh * ww,
                    ret == traps_in_grid(g, s0, hh, ww, row as int) + traps_in_row(g, s0, hh, ww, row as int, col as int),
                decreases self.width - col,
            {
                proof {
                    lemma_traps_row_bound(g, s0, hh, ww, row as int, col + 1);
                    lemma_traps_row_bound(g, s0, hh, ww, row as int, ww);
                    lemma_traps_row_monotone(g, s0, hh, ww, row as int, col + 1, ww);
                }
                let ch = self.map[row][col];
                if ch != '#' && ch != '^' {
                    self.map[row][col] = '#';
                    assert(grid_of(self.map@) =~= with_obstacle(g, row as int, col as int));
                    let heading = self.direction;
                    let trapped_here = self.is_loop();
                    self.direction = heading;
                    self.map[row][col] = ch;
                    assert(grid_of(self.map@)[row as int] =~= g[row as int]);
                    assert(grid_of(self.map@) =~= g);
                    if trapped_here {
                        ret += 1;
                    }
                }
                col += 1;
            }
            row += 1;
        }
        ret
    }
}

proof fn lemma_traps_row_monotone(g: Seq<Seq<char>>, s: (int, int, Direction), h: int, w: int, r: int, i: int, j: int)
    requires
        0 <= i <= j,
    ensures
        traps_in_row(g, s, h, w, r, i) <= traps_in_row(g, s, h, w, r, j),
    decreases j,
{
    if j > i {
        lemma_traps_row_monotone(g, s, h, w, r, i, j - 1);
    }
}

} // verus!
