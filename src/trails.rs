//! Hiking trails on a height map: paths that climb one step at a time from
//! height 0 to height 9.
use vstd::prelude::*;
use std::collections::HashSet;

verus! {

/// The direction of the last step; `Nil` at the start of a trail.
#[derive(Clone, Copy, Debug, PartialEq, Eq, Structural)]
pub enum Direction {
    Left,
    Right,
    Up,
    Down,
    Nil,
}

pub open spec fn pow4(n: nat) -> int
    decreases n,
{
    if n == 0 {
        1
    } else {
        4 * pow4((n - 1) as nat)
    }
}

/// Number of trails that continue at `(r, c)` after a step of height
/// `prev` taken in direction `dir`, never stepping straight back.
pub open spec fn paths(g: Seq<Vec<i32>>, h: int, w: int, r: int, c: int, prev: int, dir: Direction) -> int
    decreases 9 - prev,
{
    if prev > 8 || !(0 <= r < g.len() && 0 <= c < g[r]@.len()) {
        0
    } else {
        let v = g[r]@[c] as int;
        if v != prev + 1 {
            0
        } else if v == 9 {
            1
        } else {
            let up = if r > 0 && dir != Direction::Down { paths(g, h, w, r - 1, c, v, Direction::Up) } else { 0 };
            let right = if c < w - 1 && dir != Direction::Left { paths(g, h, w, r, c + 1, v, Direction::Right) } else { 0 };
            let down = if r < h - 1 && dir != Direction::Up { paths(g, h, w, r + 1, c, v, Direction::Down) } else { 0 };
            let left = if c > 0 && dir != Direction::Right { paths(g, h, w, r, c - 1, v, Direction::Left) } else { 0 };
            up + right + down + left
        }
    }
}

proof fn lemma_paths_bounds(g: Seq<Vec<i32>>, h: int, w: int, r: int, c: int, prev: int, dir: Direction)
    requires
        -1 <= prev,
    ensures
        0 <= paths(g, h, w, r, c, prev, dir) <= pow4((9 - prev) as nat),
    decreases 9 - prev,
{
    lemma_pow4_positive((9 - prev) as nat);
    if prev > 8 || !(0 <= r < g.len() && 0 <= c < g[r]@.len()) {
    } else {
        let v = g[r]@[c] as int;
        lemma_pow4_positive((9 - prev) as nat);
        if v == prev + 1 && v != 9 {
            lemma_paths_bounds(g, h, w, r - 1, c, v, Direction::Up);
            lemma_paths_bounds(g, h, w, r, c + 1, v, Direction::Right);
            lemma_paths_bounds(g, h, w, r + 1, c, v, Direction::Down);
            lemma_paths_bounds(g, h, w, r, c - 1, v, Direction::Left);
            assert(pow4((9 - prev) as nat) == 4 * pow4((9 - v) as nat));
        }
    }
}

proof fn lemma_pow4_positive(n: nat)
    ensures
        pow4(n) >= 1,
    decreases n,
{
    if n > 0 {
        lemma_pow4_positive((n - 1) as nat);
    }
}

/// Sum of the trails from the first `n` trail heads.
pub open spec fn score_upto(g: Seq<Vec<i32>>, h: int, w: int, heads: Seq<(i32, i32)>, n: int) -> int
    decreases n,
{
    if n <= 0 {
        0
    } else {
        score_upto(g, h, w, heads, n - 1) + paths(g, h, w, heads[n - 1].0 as int, heads[n - 1].1 as int, -1, Direction::Nil)
    }
}

proof fn lemma_score_monotone(g: Seq<Vec<i32>>, h: int, w: int, heads: Seq<(i32, i32)>, i: int, j: int)
    requires
        0 <= i <= j,
    ensures
        0 <= score_upto(g, h, w, heads, i) <= score_upto(g, h, w, heads, j),
    decreases j,
{
    if j > i {
        lemma_score_monotone(g, h, w, heads, i, j - 1);
        lemma_paths_bounds(g, h, w, heads[j - 1].0 as int, heads[j - 1].1 as int, -1, Direction::Nil);
    } else if i > 0 {
        lemma_score_monotone(g, h, w, heads, i - 1, i - 1);
        lemma_paths_bounds(g, h, w, heads[i - 1].0 as int, heads[i - 1].1 as int, -1, Direction::Nil);
    }
}

/// A height map of `height` rows of `wide` cells, with its trail heads.
pub struct RoadMap {
    pub map: Vec<Vec<i32>>,
    pub trail_heads: Vec<(i32, i32)>,
    pub wide: i32,
    pub height: i32,
}

impl RoadMap {
    pub open spec fn wf(&self) -> bool {
        &&& self.map@.len() == self.height
        &&& 0 <= self.wide
        &&& forall|r: int| 0 <= r < self.height ==> (#[trigger] self.map@[r])@.len() == self.wide
    }

    /// Takes a height map whose rows have equal length, and records every
    /// cell of height 0 as a trail head, row by row.
    pub fn from_heights(map: Vec<Vec<i32>>) -> (r: Option<RoadMap>)
        ensures
            r matches Some(m) ==> {
                &&& m.wf()
                &&& m.map@ == map@
                &&& forall|k: int| 0 <= k < m.trail_heads@.len() ==> {
                    let (hr, hc) = #[trigger] m.trail_heads@[k];
                    0 <= hr < m.height && 0 <= hc < m.wide && map@[hr as int]@[hc as int] == 0
                }
                &&& forall|hr: int, hc: int| 0 <= hr < m.height && 0 <= hc < m.wide
                    && #[trigger] map@[hr]@[hc] == 0 ==> m.trail_heads@.contains((hr as i32, hc as i32))
            },
            r is None <==> map@.len() > i32::MAX || (map@.len() > 0 && (map@[0]@.len() > i32::MAX
                || exists|k: int| 0 <= k < map@.len() && (#[trigger] map@[k])@.len() != map@[0]@.len())),
    {
        if map.len() > i32::MAX as usize {
            return None;
        }
        let height = map.len();
        let wide = if height == 0 {
            0
        } else {
            map[0].len()
        };
        if wide > i32::MAX as usize {
            return None;
        }
        let mut heads: Vec<(i32, i32)> = Vec::new();
        let mut row: usize = 0;
        while row < height
            invariant
                height == map@.len(),
                height <= i32::MAX,
                wide <= i32::MAX,
                height > 0 ==> wide == map@[0]@.len(),
                row <= height,
                forall|k: int| 0 <= k < row ==> (#[trigger] map@[k])@.len() == wide,
                forall|k: int| 0 <= k < heads@.len() ==> {
                    let (hr, hc) = #[trigger] heads@[k];
                    0 <= hr < row && 0 <= hc < wide && map@[hr as int]@[hc as int] == 0
                },
                forall|hr: int, hc: int| 0 <= hr < row && 0 <= hc < wide
                    && #[trigger] map@[hr]@[hc] == 0 ==> heads@.contains((hr as i32, hc as i32)),
            decreases height - row,
        {
            if map[row].len() != wide {
                return None;
            }
            let ghost before = heads@;
            let mut col: usize = 0;
            while col < wide
                invariant
                    height == map@.len(),
                    height <= i32::MAX,
                    wide <= i32::MAX,
                    row < height,
                    map@[row as int]@.len() == wide,
                    col <= wide,
                    forall|k: int| 0 <= k < heads@.len() ==> {
                        let (hr, hc) = #[trigger] heads@[k];
                        0 <= hr <= row && 0 <= hc < wide && map@[hr as int]@[hc as int] == 0
                    },
                    forall|k: int| 0 <= k < before.len() ==> heads@[k] == #[trigger] before[k],
                    before.len() <= heads@.len(),
                    forall|hc: int| 0 <= hc < col && #[trigger] map@[row as int]@[hc] == 0
                        ==> heads@.contains((row as i32, hc as i32)),
                decreases wide - col,
            {
                let ghost earlier = heads@;
                if map[row][col] == 0 {
                    heads.push((row as i32, col as i32));
                    assert(heads@[heads@.len() - 1] == (row as i32, col as i32));
                    assert forall|hc: int| 0 <= hc < col + 1 && #[trigger] map@[row as int]@[hc] == 0
                        implies heads@.contains((row as i32, hc as i32)) by {
                        if hc < col {
                            let k = choose|k: int| 0 <= k < earlier.len() && earlier[k] == (row as i32, hc as i32);
                            assert(heads@[k] == earlier[k]);
                        }
                    }
                }
                col += 1;
            }
            assert forall|hr: int, hc: int| 0 <= hr < row + 1 && 0 <= hc < wide
                && #[trigger] map@[hr]@[hc] == 0 implies heads@.contains((hr as i32, hc as i32)) by {
                if hr < row {
                    assert(before.contains((hr as i32, hc as i32)));
                    let k = choose|k: int| 0 <= k < before.len() && before[k] == (hr as i32, hc as i32);
                    assert(heads@[k] == before[k]);
                }
            }
            row += 1;
        }
        Some(RoadMap { map, trail_heads: heads, wide: wide as i32, height: height as i32 })
    }

    /// Number of distinct trails from `(row, col)` onward, after a step of
    /// height `prev_num` taken in direction `pre_direction`.
    pub fn dfs_distinct(&self, row: i32, col: i32, prev_num: i32, pre_direction: Direction) -> (n: i32)
        requires
            self.wf(),
            0 <= row < self.height,
            0 <= col < self.wide,
            -1 <= prev_num <= 8,
        ensures
            n == paths(self.map@, self.height as int, self.wide as int, row as int, col as int, prev_num as int, pre_direction),
            0 <= n <= pow4((9 - prev_num) as nat),
        decreases 9 - prev_num,
    {
        proof {
            lemma_paths_bounds(self.map@, self.height as int, self.wide as int, row as int, col as int, prev_num as int, pre_direction);
            reveal_with_fuel(pow4, 11);
            assert(pow4(10) == 1048576);
            lemma_pow4_le((9 - prev_num) as nat, 10);
        }
        let v = self.map[row as usize][col as usize];
        if v != prev_num + 1 {
            return 0;
        } else if v == 9 {
            return 1;
        }
        let up = if row > 0 && pre_direction != Direction::Down {
            self.dfs_distinct(row - 1, col, v, Direction::Up)
        } else {
            0
        };
        let right = if col < self.wide - 1 && pre_direction != Direction::Left {
            self.dfs_distinct(row, col + 1, v, Direction::Right)
        } else {
            0
        };
        let down = if row < self.height - 1 && pre_direction != Direction::Up {
            self.dfs_distinct(row + 1, col, v, Direction::Down)
        } else {
            0
        };
        let left = if col > 0 && pre_direction != Direction::Right {
            self.dfs_distinct(row, col - 1, v, Direction::Left)
        } else {
            0
        };
        proof {
            assert(pow4((9 - prev_num) as nat) == 4 * pow4((9 - v) as nat));
        }
        up + right + down + left
    }

    /// Sum over the trail heads of their distinct trails; `None` where it
    /// does not fit in 32 bits.
    pub fn cal_distinct_score(&self) -> (r: Option<i32>)
        requires
            self.wf(),
            forall|k: int| 0 <= k < self.trail_heads@.len() ==> {
                let (hr, hc) = #[trigger] self.trail_heads@[k];
                0 <= hr < self.height && 0 <= hc < self.wide
            },
        ensures
            r is Some <==> score_upto(self.map@, self.height as int, self.wide as int, self.trail_heads@, self.trail_heads@.len() as int) <= i32::MAX,
            r matches Some(v) ==> v == score_upto(self.map@, self.height as int, self.wide as int, self.trail_heads@, self.trail_heads@.len() as int),
    {
        let mut ret: i32 = 0;
        let mut k: usize = 0;
        while k < self.trail_heads.len()
            invariant
                k <= self.trail_heads.len(),
                self.wf(),
                forall|j: int| 0 <= j < self.trail_heads@.len() ==> {
                    let (hr, hc) = #[trigger] self.trail_heads@[j];
                    0 <= hr < self.height && 0 <= hc < self.wide
                },
                ret == score_upto(self.map@, self.height as int, self.wide as int, self.trail_heads@, k as int),
            decreases self.trail_heads.len() - k,
        {
            let (hr, hc) = self.trail_heads[k];
            proof {
                lemma_score_monotone(self.map@, self.height as int, self.wide as int, self.trail_heads@, k + 1, self.trail_heads@.len() as int);
            }
            let n = self.dfs_distinct(hr, hc, -1, Direction::Nil);
            match ret.checked_add(n) {
                Some(x) => {
                    ret = x;
                },
                None => {
                    return None;
                },
            }
            k += 1;
        }
        Some(ret)
    }
}

proof fn lemma_pow4_le(a: nat, b: nat)
    requires
        a <= b,
    ensures
        pow4(a) <= pow4(b),
    decreases b,
{
    if b > a {
        lemma_pow4_le(a, (b - 1) as nat);
        lemma_pow4_positive((b - 1) as nat);
    }
}

/// The key of cell `(r, c)` in a map `w` cells wide.
pub open spec fn cell_key(r: int, c: int, w: int) -> u64 {
    (r * w + c) as u64
}

/// Keys of the height-9 cells that trails from `(r, c)` reach, after a step
/// of height `prev` in direction `dir`.
pub open spec fn nines(g: Seq<Vec<i32>>, h: int, w: int, r: int, c: int, prev: int, dir: Direction) -> Set<u64>
    decreases 9 - prev,
{
    if prev > 8 || !(0 <= r < g.len() && 0 <= c < g[r]@.len()) {
        Set::empty()
    } else {
        let v = g[r]@[c] as int;
        if v != prev + 1 {
            Set::empty()
        } else if v == 9 {
            set![cell_key(r, c, w)]
        } else {
            let up = if r > 0 && dir != Direction::Down { nines(g, h, w, r - 1, c, v, Direction::Up) } else { Set::empty() };
            let right = if c < w - 1 && dir != Direction::Left { nines(g, h, w, r, c + 1, v, Direction::Right) } else { Set::empty() };
            let down = if r < h - 1 && dir != Direction::Up { nines(g, h, w, r + 1, c, v, Direction::Down) } else { Set::empty() };
            let left = if c > 0 && dir != Direction::Right { nines(g, h, w, r, c - 1, v, Direction::Left) } else { Set::empty() };
            up.union(right).union(down).union(left)
        }
    }
}

proof fn lemma_nines_bounds(g: Seq<Vec<i32>>, h: int, w: int, r: int, c: int, prev: int, dir: Direction)
    requires
        -1 <= prev,
    ensures
        nines(g, h, w, r, c, prev, dir).finite(),
        nines(g, h, w, r, c, prev, dir).len() <= pow4((9 - prev) as nat),
    decreases 9 - prev,
{
    lemma_pow4_positive((9 - prev) as nat);
    if prev > 8 || !(0 <= r < g.len() && 0 <= c < g[r]@.len()) {
    } else {
        let v = g[r]@[c] as int;
        if v == prev + 1 && v != 9 {
            let e = Set::<u64>::empty();
            let up = if r > 0 && dir != Direction::Down { nines(g, h, w, r - 1, c, v, Direction::Up) } else { e };
            let right = if c < w - 1 && dir != Direction::Left { nines(g, h, w, r, c + 1, v, Direction::Right) } else { e };
            let down = if r < h - 1 && dir != Direction::Up { nines(g, h, w, r + 1, c, v, Direction::Down) } else { e };
            let left = if c > 0 && dir != Direction::Right { nines(g, h, w, r, c - 1, v, Direction::Left) } else { e };
            lemma_nines_bounds(g, h, w, r - 1, c, v, Direction::Up);
            lemma_nines_bounds(g, h, w, r, c + 1, v, Direction::Right);
            lemma_nines_bounds(g, h, w, r + 1, c, v, Direction::Down);
            lemma_nines_bounds(g, h, w, r, c - 1, v, Direction::Left);
            lemma_pow4_positive((9 - v) as nat);
            vstd::set_lib::lemma_len_union(up, right);
            vstd::set_lib::lemma_len_union(up.union(right), down);
            vstd::set_lib::lemma_len_union(up.union(right).union(down), left);
            assert(pow4((9 - prev) as nat) == 4 * pow4((9 - v) as nat));
        }
    }
}

proof fn lemma_branch_bound(v: int)
    requires
        0 <= v <= 8,
    ensures
        pow4((9 - v) as nat) <= 262144,
{
    lemma_pow4_le((9 - v) as nat, 9);
    reveal_with_fuel(pow4, 10);
}

/// The cells reached one way on, or none where that way is not taken.
pub open spec fn branch_set(g: Seq<Vec<i32>>, h: int, w: int, go: bool, r: int, c: int, v: int, dir: Direction) -> Set<u64> {
    if go {
        nines(g, h, w, r, c, v, dir)
    } else {
        Set::empty()
    }
}

proof fn lemma_four_branches(x: Set<u64>, a: Set<u64>, b: Set<u64>, c: Set<u64>, d: Set<u64>)
    requires
        a.finite(),
        b.finite(),
        c.finite(),
        d.finite(),
    ensures
        x.union(a).union(b).union(c).union(d) == x.union(a.union(b).union(c).union(d)),
        a.difference(x).len() + b.difference(x.union(a)).len() + c.difference(x.union(a).union(b)).len()
            + d.difference(x.union(a).union(b).union(c)).len() == a.union(b).union(c).union(d).difference(x).len(),
{
    lemma_new_members(a, b, x);
    assert(x.union(a).union(b) =~= x.union(a.union(b)));
    lemma_new_members(a.union(b), c, x);
    assert(x.union(a).union(b).union(c) =~= x.union(a.union(b).union(c)));
    lemma_new_members(a.union(b).union(c), d, x);
    assert(x.union(a).union(b).union(c).union(d) =~= x.union(a.union(b).union(c).union(d)));
}

/// Counting the new members of `a` and then those of `b` counts the new
/// members of their union.
pub(crate) proof fn lemma_new_members(a: Set<u64>, b: Set<u64>, x: Set<u64>)
    requires
        a.finite(),
        b.finite(),
    ensures
        a.difference(x).len() + b.difference(x.union(a)).len() == a.union(b).difference(x).len(),
{
    let p = a.difference(x);
    let q = b.difference(x.union(a));
    assert(a.union(b).difference(x) =~= p + q);
    assert(p.disjoint(q));
    vstd::set_lib::lemma_set_disjoint_lens(p, q);
}

/// Sum over the first `n` trail heads of the height-9 cells each reaches.
pub open spec fn score_nines_upto(g: Seq<Vec<i32>>, h: int, w: int, heads: Seq<(i32, i32)>, n: int) -> int
    decreases n,
{
    if n <= 0 {
        0
    } else {
        score_nines_upto(g, h, w, heads, n - 1)
            + nines(g, h, w, heads[n - 1].0 as int, heads[n - 1].1 as int, -1, Direction::Nil).len()
    }
}

proof fn lemma_score_nines_monotone(g: Seq<Vec<i32>>, h: int, w: int, heads: Seq<(i32, i32)>, i: int, j: int)
    requires
        0 <= i <= j,
    ensures
        0 <= score_nines_upto(g, h, w, heads, i) <= score_nines_upto(g, h, w, heads, j),
    decreases j,
{
    if j > i {
        lemma_score_nines_monotone(g, h, w, heads, i, j - 1);
    } else if i > 0 {
        lemma_score_nines_monotone(g, h, w, heads, i - 1, i - 1);
    }
}

impl RoadMap {
    /// Records in `visited_nine` the height-9 cells that trails from
    /// `(row, col)` reach, after a step of height `prev_num` in direction
    /// `pre_direction`, and returns how many of them were not recorded yet.
    #[verifier::spinoff_prover]
    #[verifier::rlimit(50)]
    pub fn dfs(&self, row: i32, col: i32, prev_num: i32, pre_direction: Direction, visited_nine: &mut HashSet<u64>) -> (n: i32)
        requires
            self.wf(),
            0 <= row < self.height,
            0 <= col < self.wide,
            -1 <= prev_num <= 8,
        ensures
            final(visited_nine)@ == old(visited_nine)@.union(
                nines(self.map@, self.height as int, self.wide as int, row as int, col as int, prev_num as int, pre_direction)),
            n == nines(self.map@, self.height as int, self.wide as int, row as int, col as int, prev_num as int, pre_direction)
                .difference(old(visited_nine)@).len(),
        decreases 9 - prev_num, 1int,
    {
        let ghost (g, h, w) = (self.map@, self.height as int, self.wide as int);
        let ghost here = nines(g, h, w, row as int, col as int, prev_num as int, pre_direction);
        let ghost old_set = visited_nine@;
        let v = self.map[row as usize][col as usize];
        assert(v as int == g[row as int]@[col as int]);
        if v != prev_num + 1 {
            assert(visited_nine@ =~= old_set.union(here));
            assert(here.difference(old_set) =~= Set::<u64>::empty());
            return 0;
        } else if v == 9 {
            return self.mark_nine(row, col, visited_nine);
        }
        let go_up = row > 0 && pre_direction != Direction::Down;
        let go_right = col < self.wide - 1 && pre_direction != Direction::Left;
        let go_down = row < self.height - 1 && pre_direction != Direction::Up;
        let go_left = col > 0 && pre_direction != Direction::Right;
        let up = self.branch(go_up, row - 1, col, v, Direction::Up, visited_nine);
        let right = self.branch(go_right, row, col + 1, v, Direction::Right, visited_nine);
        let down = self.branch(go_down, row + 1, col, v, Direction::Down, visited_nine);
        let left = self.branch(go_left, row, col - 1, v, Direction::Left, visited_nine);
        proof {
            assert(here == branch_set(g, h, w, go_up, row - 1, col as int, v as int, Direction::Up)
                .union(branch_set(g, h, w, go_right, row as int, col + 1, v as int, Direction::Right))
                .union(branch_set(g, h, w, go_down, row + 1, col as int, v as int, Direction::Down))
                .union(branch_set(g, h, w, go_left, row as int, col - 1, v as int, Direction::Left)));
            lemma_four_branches(
                old_set,
                branch_set(g, h, w, go_up, row - 1, col as int, v as int, Direction::Up),
                branch_set(g, h, w, go_right, row as int, col + 1, v as int, Direction::Right),
                branch_set(g, h, w, go_down, row + 1, col as int, v as int, Direction::Down),
                branch_set(g, h, w, go_left, row as int, col - 1, v as int, Direction::Left),
            );
            lemma_branch_bound(v as int);
        }
        up + right + down + left
    }

    /// Records the height-9 cell `(row, col)`; 1 where it was not recorded yet.
    fn mark_nine(&self, row: i32, col: i32, visited_nine: &mut HashSet<u64>) -> (n: i32)
        requires
            self.wf(),
            0 <= row < self.height,
            0 <= col < self.wide,
        ensures
            final(visited_nine)@ == old(visited_nine)@.union(set![cell_key(row as int, col as int, self.wide as int)]),
            n == set![cell_key(row as int, col as int, self.wide as int)].difference(old(visited_nine)@).len(),
    {
        broadcast use vstd::std_specs::hash::group_hash_axioms;
        let ghost w = self.wide as int;
        assert(0 <= row as int * w <= i32::MAX * i32::MAX) by (nonlinear_arith)
            requires
                0 <= row <= i32::MAX,
                0 <= w <= i32::MAX,
        ;
        let key = (row as u64) * (self.wide as u64) + (col as u64);
        let ghost old_set = visited_nine@;
        let inserted = visited_nine.insert(key);
        assert(visited_nine@ =~= old_set.union(set![key]));
        if inserted {
            assert(set![key].difference(old_set) =~= set![key]);
            1
        } else {
            assert(set![key].difference(old_set) =~= Set::<u64>::empty());
            0
        }
    }

    /// One of the four ways on from a cell of height `v`: walks it where
    /// `go` holds, and otherwise records nothing.
    fn branch(&self, go: bool, row: i32, col: i32, v: i32, dir: Direction, visited_nine: &mut HashSet<u64>) -> (n: i32)
        requires
            self.wf(),
            go ==> 0 <= row < self.height && 0 <= col < self.wide,
            0 <= v <= 8,
        ensures
            final(visited_nine)@ == old(visited_nine)@.union(
                branch_set(self.map@, self.height as int, self.wide as int, go, row as int, col as int, v as int, dir)),
            n == branch_set(self.map@, self.height as int, self.wide as int, go, row as int, col as int, v as int, dir)
                .difference(old(visited_nine)@).len(),
            branch_set(self.map@, self.height as int, self.wide as int, go, row as int, col as int, v as int, dir).finite(),
            0 <= n <= pow4((9 - v) as nat),
        decreases 9 - v, 2int,
    {
        let ghost s = branch_set(self.map@, self.height as int, self.wide as int, go, row as int, col as int, v as int, dir);
        proof {
            lemma_nines_bounds(self.map@, self.height as int, self.wide as int, row as int, col as int, v as int, dir);
            lemma_pow4_positive((9 - v) as nat);
            vstd::set_lib::lemma_len_difference(s, visited_nine@);
        }
        if go {
            self.dfs(row, col, v, dir, visited_nine)
        } else {
            assert(visited_nine@ =~= visited_nine@.union(s));
            assert(s.difference(visited_nine@) =~= Set::<u64>::empty());
            0
        }
    }

    /// Sum over the trail heads of the distinct height-9 cells each one's
    /// trails reach; `None` where it does not fit in 32 bits.
    pub fn cal_score(&self) -> (r: Option<i32>)
        requires
            self.wf(),
            forall|k: int| 0 <= k < self.trail_heads@.len() ==> {
                let (hr, hc) = #[trigger] self.trail_heads@[k];
                0 <= hr < self.height && 0 <= hc < self.wide
            },
        ensures
            r is Some <==> score_nines_upto(self.map@, self.height as int, self.wide as int, self.trail_heads@, self.trail_heads@.len() as int) <= i32::MAX,
            r matches Some(v) ==> v == score_nines_upto(self.map@, self.height as int, self.wide as int, self.trail_heads@, self.trail_heads@.len() as int),
    {
        let mut ret: i32 = 0;
        let mut k: usize = 0;
        while k < self.trail_heads.len()
            invariant
                k <= self.trail_heads.len(),
                self.wf(),
                forall|j: int| 0 <= j < self.trail_heads@.len() ==> {
                    let (hr, hc) = #[trigger] self.trail_heads@[j];
                    0 <= hr < self.height && 0 <= hc < self.wide
                },
                ret == score_nines_upto(self.map@, self.height as int, self.wide as int, self.trail_heads@, k as int),
            decreases self.trail_heads.len() - k,
        {
            let (hr, hc) = self.trail_heads[k];
            proof {
                lemma_score_nines_monotone(self.map@, self.height as int, self.wide as int, self.trail_heads@, k + 1, self.trail_heads@.len() as int);
            }
            let mut visited_nine: HashSet<u64> = HashSet::new();
            let n = self.dfs(hr, hc, -1, Direction::Nil, &mut visited_nine);
            proof {
                let reached = nines(self.map@, self.height as int, self.wide as int, hr as int, hc as int, -1, Direction::Nil);
                assert(reached.difference(Set::<u64>::empty()) =~= reached);
            }
            match ret.checked_add(n) {
                Some(x) => {
                    ret = x;
                },
                None => {
                    return None;
                },
            }
            k += 1;
        }
        Some(ret)
    }
}

} // verus!
