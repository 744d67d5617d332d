//! Garden regions: the price of fencing each region, by perimeter or by
//! number of sides (counted as corners).
use vstd::prelude::*;

verus! {

/// Cell `(r, c)` lies on the map and holds `ch`.
pub open spec fn same(g: Seq<Vec<u8>>, r: int, c: int, ch: u8) -> bool {
    0 <= r < g.len() && 0 <= c < g[r]@.len() && g[r]@[c] == ch
}

/// Cell `(r, c)` lies on the map and holds something else than `ch`.
pub open spec fn differs(g: Seq<Vec<u8>>, r: int, c: int, ch: u8) -> bool {
    0 <= r < g.len() && 0 <= c < g[r]@.len() && g[r]@[c] != ch
}

pub open spec fn ind(b: bool) -> int {
    if b {
        1
    } else {
        0
    }
}

/// Fence sides of cell `(r, c)` of a region of `ch`: its sides that do not
/// face a cell of `ch`.
pub open spec fn open_sides(g: Seq<Vec<u8>>, r: int, c: int, ch: u8) -> int {
    4 - (ind(same(g, r - 1, c, ch)) + ind(same(g, r, c + 1, ch)) + ind(same(g, r + 1, c, ch)) + ind(same(g, r, c - 1, ch)))
}

/// Outer corners at `(r, c)`: pairs of neighbouring sides that both face
/// away from the region.
pub open spec fn outer_corners(g: Seq<Vec<u8>>, r: int, c: int, ch: u8) -> int {
    let (u, rt, d, l) = (same(g, r - 1, c, ch), same(g, r, c + 1, ch), same(g, r + 1, c, ch), same(g, r, c - 1, ch));
    ind(!rt && !u) + ind(!l && !u) + ind(!rt && !d) + ind(!l && !d)
}

/// Inner corners at `(r, c)`: two neighbouring sides inside the region
/// with the diagonal cell between them outside it.
pub open spec fn inner_corners(g: Seq<Vec<u8>>, r: int, c: int, ch: u8) -> int {
    let (u, rt, d, l) = (same(g, r - 1, c, ch), same(g, r, c + 1, ch), same(g, r + 1, c, ch), same(g, r, c - 1, ch));
    ind(rt && u && differs(g, r - 1, c + 1, ch)) + ind(l && u && differs(g, r - 1, c - 1, ch))
        + ind(rt && d && differs(g, r + 1, c + 1, ch)) + ind(l && d && differs(g, r + 1, c - 1, ch))
}

/// The character of a group: that of its first point.
pub open spec fn group_char(g: Seq<Vec<u8>>, pts: Seq<(i32, i32)>) -> u8 {
    g[pts[0].0 as int]@[pts[0].1 as int]
}

/// Sum of `f` over the first `n` points of a group.
pub open spec fn perimeter_upto(g: Seq<Vec<u8>>, pts: Seq<(i32, i32)>, ch: u8, n: int) -> int
    decreases n,
{
    if n <= 0 {
        0
    } else {
        perimeter_upto(g, pts, ch, n - 1) + open_sides(g, pts[n - 1].0 as int, pts[n - 1].1 as int, ch)
    }
}

/// The perimeter of a group: 4 for fewer than two points.
pub open spec fn perimeter(g: Seq<Vec<u8>>, pts: Seq<(i32, i32)>) -> int {
    if pts.len() < 2 {
        4
    } else {
        perimeter_upto(g, pts, group_char(g, pts), pts.len() as int)
    }
}

pub open spec fn corners_upto(g: Seq<Vec<u8>>, pts: Seq<(i32, i32)>, ch: u8, n: int) -> int
    decreases n,
{
    if n <= 0 {
        0
    } else {
        corners_upto(g, pts, ch, n - 1) + outer_corners(g, pts[n - 1].0 as int, pts[n - 1].1 as int, ch)
            + inner_corners(g, pts[n - 1].0 as int, pts[n - 1].1 as int, ch)
    }
}

/// The number of sides of a group: its corners.
pub open spec fn corners(g: Seq<Vec<u8>>, pts: Seq<(i32, i32)>) -> int {
    corners_upto(g, pts, group_char(g, pts), pts.len() as int)
}

/// Sum over the first `n` areas of size times perimeter (`sides` false) or
/// size times number of sides (`sides` true).
pub open spec fn price_upto(g: Seq<Vec<u8>>, areas: Seq<Vec<(i32, i32)>>, n: int, sides: bool) -> int
    decreases n,
{
    if n <= 0 {
        0
    } else {
        price_upto(g, areas, n - 1, sides) + areas[n - 1]@.len() * if sides {
            corners(g, areas[n - 1]@)
        } else {
            perimeter(g, areas[n - 1]@)
        }
    }
}

proof fn lemma_perimeter_bounds(g: Seq<Vec<u8>>, pts: Seq<(i32, i32)>, ch: u8, n: int)
    requires
        0 <= n,
    ensures
        0 <= perimeter_upto(g, pts, ch, n) <= 4 * n,
    decreases n,
{
    if n > 0 {
        lemma_perimeter_bounds(g, pts, ch, n - 1);
    }
}

proof fn lemma_corners_bounds(g: Seq<Vec<u8>>, pts: Seq<(i32, i32)>, ch: u8, n: int)
    requires
        0 <= n,
    ensures
        0 <= corners_upto(g, pts, ch, n) <= 8 * n,
    decreases n,
{
    if n > 0 {
        lemma_corners_bounds(g, pts, ch, n - 1);
    }
}

/// Largest map side the region arithmetic is made for.
pub const GARDEN_SIDE_MAX: i32 = 32768;

/// Every point of `pts` lies on a map of `h` rows and `w` columns.
pub open spec fn points_on_map(pts: Seq<(i32, i32)>, h: int, w: int) -> bool {
    forall|k: int| 0 <= k < pts.len() ==> 0 <= (#[trigger] pts[k]).0 < h && 0 <= pts[k].1 < w
}

proof fn lemma_price_monotone(g: Seq<Vec<u8>>, areas: Seq<Vec<(i32, i32)>>, i: int, j: int, sides: bool)
    requires
        0 <= i <= j,
    ensures
        0 <= price_upto(g, areas, i, sides) <= price_upto(g, areas, j, sides),
    decreases j,
{
    if j > i {
        lemma_price_monotone(g, areas, i, j - 1, sides);
        let pts = areas[j - 1]@;
        if sides {
            if pts.len() > 0 {
                lemma_corners_bounds(g, pts, group_char(g, pts), pts.len() as int);
            } else {
                assert(corners(g, pts) == 0);
            }
            assert(pts.len() * corners(g, pts) >= 0) by (nonlinear_arith)
                requires
                    corners(g, pts) >= 0,
            ;
        } else {
            if pts.len() >= 2 {
                lemma_perimeter_bounds(g, pts, group_char(g, pts), pts.len() as int);
            }
            assert(pts.len() * perimeter(g, pts) >= 0) by (nonlinear_arith)
                requires
                    perimeter(g, pts) >= 0,
            ;
        }
    } else if i > 0 {
        lemma_price_monotone(g, areas, i - 1, i - 1, sides);
        let pts = areas[i - 1]@;
        if sides {
            if pts.len() > 0 {
                lemma_corners_bounds(g, pts, group_char(g, pts), pts.len() as int);
            } else {
                assert(corners(g, pts) == 0);
            }
            assert(pts.len() * corners(g, pts) >= 0) by (nonlinear_arith)
                requires
                    corners(g, pts) >= 0,
            ;
        } else {
            if pts.len() >= 2 {
                lemma_perimeter_bounds(g, pts, group_char(g, pts), pts.len() as int);
            }
            assert(pts.len() * perimeter(g, pts) >= 0) by (nonlinear_arith)
                requires
                    perimeter(g, pts) >= 0,
            ;
        }
    }
}

/// `p` and `q` are side by side.
pub open spec fn adjacent(p: (i32, i32), q: (i32, i32)) -> bool {
    (p.0 == q.0 && (p.1 - q.1 == 1 || q.1 - p.1 == 1)) || (p.1 == q.1 && (p.0 - q.0 == 1 || q.0 - p.0 == 1))
}

pub open spec fn at(g: Seq<Vec<u8>>, p: (i32, i32)) -> u8 {
    g[p.0 as int]@[p.1 as int]
}

/// A region: its points share one character, each point after the first
/// touches an earlier one, and every cell of that character touching the
/// region belongs to it.
pub open spec fn is_region(g: Seq<Vec<u8>>, h: int, w: int, pts: Seq<(i32, i32)>) -> bool {
    &&& pts.len() > 0
    &&& points_on_map(pts, h, w)
    &&& forall|k: int| 0 <= k < pts.len() ==> at(g, #[trigger] pts[k]) == at(g, pts[0])
    &&& forall|k: int| 1 <= k < pts.len() ==> exists|j: int| 0 <= j < k && adjacent(pts[j], #[trigger] pts[k])
    &&& forall|k: int, q: (i32, i32)| 0 <= k < pts.len() && 0 <= q.0 < h && 0 <= q.1 < w && adjacent(#[trigger] pts[k], q)
        && at(g, q) == at(g, pts[k]) ==> #[trigger] pts.contains(q)
}

/// `p` is listed in one of the areas.
pub open spec fn listed(areas: Seq<Vec<(i32, i32)>>, p: (i32, i32)) -> bool {
    exists|a: int| 0 <= a < areas.len() && #[trigger] areas[a]@.contains(p)
}

/// No point is listed twice, within an area or across areas.
pub open spec fn listed_once(areas: Seq<Vec<(i32, i32)>>) -> bool {
    &&& forall|a: int, k: int, l: int| 0 <= a < areas.len() && 0 <= k < l < areas[a]@.len()
        ==> #[trigger] areas[a]@[k] != #[trigger] areas[a]@[l]
    &&& forall|a: int, b: int, p: (i32, i32)| 0 <= a < b < areas.len() && #[trigger] areas[a]@.contains(p)
        ==> !#[trigger] areas[b]@.contains(p)
}

/// A garden map and its regions, each a list of points.
pub struct AreaMap {
    pub origin_map: Vec<Vec<u8>>,
    pub areas: Vec<Vec<(i32, i32)>>,
    pub width: i32,
    pub height: i32,
}

impl AreaMap {
    /// The map is `height` rows of `width` cells, and every region is a
    /// non-empty list of points on it.
    pub open spec fn wf(&self) -> bool {
        &&& 0 < self.height <= GARDEN_SIDE_MAX
        &&& 0 < self.width <= GARDEN_SIDE_MAX
        &&& self.origin_map@.len() == self.height
        &&& forall|r: int| 0 <= r < self.height ==> (#[trigger] self.origin_map@[r])@.len() == self.width
        &&& forall|a: int| 0 <= a < self.areas@.len() ==> {
            &&& (#[trigger] self.areas@[a])@.len() > 0
            &&& self.areas@[a]@.len() <= u32::MAX
            &&& points_on_map(self.areas@[a]@, self.height as int, self.width as int)
        }
    }

    fn same_at(&self, r: i64, c: i64, ch: u8) -> (b: bool)
        requires
            self.wf(),
        ensures
            b == same(self.origin_map@, r as int, c as int, ch),
    {
        0 <= r && r < self.height as i64 && 0 <= c && c < self.width as i64 && self.origin_map[r as usize][c as usize] == ch
    }

    fn differs_at(&self, r: i64, c: i64, ch: u8) -> (b: bool)
        requires
            self.wf(),
        ensures
            b == differs(self.origin_map@, r as int, c as int, ch),
    {
        0 <= r && r < self.height as i64 && 0 <= c && c < self.width as i64 && self.origin_map[r as usize][c as usize] != ch
    }

    /// Perimeter of a group of points: for each point, its sides that do
    /// not face a cell of the group's character (4 for fewer than two
    /// points).
    pub fn cal_perimeter_of_each_group(&self, group: &Vec<(i32, i32)>) -> (p: u64)
        requires
            self.wf(),
            points_on_map(group@, self.height as int, self.width as int),
            group@.len() <= u32::MAX,
        ensures
            p == perimeter(self.origin_map@, group@),
    {
        if group.len() < 2 {
            return 4;
        }
        let (r0, c0) = group[0];
        let ch = self.origin_map[r0 as usize][c0 as usize];
        let mut ret: u64 = 0;
        let mut k: usize = 0;
        while k < group.len()
            invariant
                self.wf(),
                points_on_map(group@, self.height as int, self.width as int),
                group@.len() <= u32::MAX,
                ch == group_char(self.origin_map@, group@),
                k <= group.len(),
                ret == perimeter_upto(self.origin_map@, group@, ch, k as int),
                ret <= 4 * k,
            decreases group.len() - k,
        {
            let (r, c) = group[k];
            let (r, c) = (r as i64, c as i64);
            let near = (if self.same_at(r - 1, c, ch) { 1u64 } else { 0 }) + (if self.same_at(r, c + 1, ch) { 1u64 } else { 0 })
                + (if self.same_at(r + 1, c, ch) { 1u64 } else { 0 }) + (if self.same_at(r, c - 1, ch) { 1u64 } else { 0 });
            ret = ret + (4 - near);
            k += 1;
        }
        ret
    }

    /// Outer corners of the region of `region` at `point`.
    pub fn is_external_corner(&self, point: &(i32, i32), region: u8) -> (n: u64)
        requires
            self.wf(),
            0 <= point.0 < self.height && 0 <= point.1 < self.width,
        ensures
            n == outer_corners(self.origin_map@, point.0 as int, point.1 as int, region),
    {
        let (r, c) = (point.0 as i64, point.1 as i64);
        let up = !self.same_at(r - 1, c, region);
        let right = !self.same_at(r, c + 1, region);
        let down = !self.same_at(r + 1, c, region);
        let left = !self.same_at(r, c - 1, region);
        let mut ret: u64 = 0;
        if right && up {
            ret += 1;
        }
        if left && up {
            ret += 1;
        }
        if right && down {
            ret += 1;
        }
        if left && down {
            ret += 1;
        }
        ret
    }

    /// Inner corners of the region of `region` at `point`.
    pub fn is_internal_corner(&self, point: &(i32, i32), region: u8) -> (n: u64)
        requires
            self.wf(),
            0 <= point.0 < self.height && 0 <= point.1 < self.width,
        ensures
            n == inner_corners(self.origin_map@, point.0 as int, point.1 as int, region),
    {
        let (r, c) = (point.0 as i64, point.1 as i64);
        let up = self.same_at(r - 1, c, region);
        let right = self.same_at(r, c + 1, region);
        let down = self.same_at(r + 1, c, region);
        let left = self.same_at(r, c - 1, region);
        let mut ret: u64 = 0;
        if right && up && self.differs_at(r - 1, c + 1, region) {
            ret += 1;
        }
        if left && up && self.differs_at(r - 1, c - 1, region) {
            ret += 1;
        }
        if right && down && self.differs_at(r + 1, c + 1, region) {
            ret += 1;
        }
        if left && down && self.differs_at(r + 1, c - 1, region) {
            ret += 1;
        }
        ret
    }

    /// Number of sides of a non-empty group: its outer and inner corners.
    pub fn cal_corners_of_each_group(&self, group: &Vec<(i32, i32)>) -> (n: u64)
        requires
            self.wf(),
            group@.len() > 0,
            points_on_map(group@, self.height as int, self.width as int),
            group@.len() <= u32::MAX,
        ensures
            n == corners(self.origin_map@, group@),
    {
        let (r0, c0) = group[0];
        let ch = self.origin_map[r0 as usize][c0 as usize];
        let mut ret: u64 = 0;
        let mut k: usize = 0;
        while k < group.len()
            invariant
                self.wf(),
                points_on_map(group@, self.height as int, self.width as int),
                group@.len() <= u32::MAX,
                ch == group_char(self.origin_map@, group@),
                k <= group.len(),
                ret == corners_upto(self.origin_map@, group@, ch, k as int),
                ret <= 8 * k,
            decreases group.len() - k,
        {
            let point = group[k];
            let outer = self.is_external_corner(&point, ch);
            let inner = self.is_internal_corner(&point, ch);
            ret = ret + outer + inner;
            k += 1;
        }
        ret
    }

    /// Sum over the regions of size times perimeter; `None` where it does
    /// not fit in 64 bits.
    pub fn cal_price(&self) -> (r: Option<u64>)
        requires
            self.wf(),
        ensures
            r is Some <==> price_upto(self.origin_map@, self.areas@, self.areas@.len() as int, false) <= u64::MAX,
            r matches Some(v) ==> v == price_upto(self.origin_map@, self.areas@, self.areas@.len() as int, false),
    {
        self.total_price(false)
    }

    /// Sum over the regions of size times number of sides; `None` where it
    /// does not fit in 64 bits.
    pub fn cal_price_alter(&self) -> (r: Option<u64>)
        requires
            self.wf(),
        ensures
            r is Some <==> price_upto(self.origin_map@, self.areas@, self.areas@.len() as int, true) <= u64::MAX,
            r matches Some(v) ==> v == price_upto(self.origin_map@, self.areas@, self.areas@.len() as int, true),
    {
        self.total_price(true)
    }

    fn total_price(&self, sides: bool) -> (r: Option<u64>)
        requires
            self.wf(),
        ensures
            r is Some <==> price_upto(self.origin_map@, self.areas@, self.areas@.len() as int, sides) <= u64::MAX,
            r matches Some(v) ==> v == price_upto(self.origin_map@, self.areas@, self.areas@.len() as int, sides),
    {
        let mut ret: u64 = 0;
        let mut a: usize = 0;
        while a < self.areas.len()
            invariant
                self.wf(),
                a <= self.areas.len(),
                ret == price_upto(self.origin_map@, self.areas@, a as int, sides),
            decreases self.areas.len() - a,
        {
            proof {
                lemma_price_monotone(self.origin_map@, self.areas@, a + 1, self.areas@.len() as int, sides);
            }
            let group = &self.areas[a];
            let per = if sides {
                self.cal_corners_of_each_group(group)
            } else {
                self.cal_perimeter_of_each_group(group)
            };
            let size = group.len() as u64;
            let term = match size.checked_mul(per) {
                Some(t) => t,
                None => return None,
            };
            ret = match ret.checked_add(term) {
                Some(v) => v,
                None => return None,
            };
            a += 1;
        }
        Some(ret)
    }
}

/// Unmarked cells among the first `n` of a row.
pub open spec fn row_unmarked(row: Seq<bool>, n: int) -> int
    decreases n,
{
    if n <= 0 {
        0
    } else {
        row_unmarked(row, n - 1) + if row[n - 1] { 0int } else { 1int }
    }
}

/// Unmarked cells in the first `m` rows, `w` cells each.
pub open spec fn unmarked(seen: Seq<Vec<bool>>, m: int, w: int) -> int
    decreases m,
{
    if m <= 0 {
        0
    } else {
        unmarked(seen, m - 1, w) + row_unmarked(seen[m - 1]@, w)
    }
}

proof fn lemma_row_unmarked_mark(row: Seq<bool>, c: int, n: int)
    requires
        0 <= c < n <= row.len(),
        !row[c],
    ensures
        row_unmarked(row.update(c, true), n) == row_unmarked(row, n) - 1,
    decreases n,
{
    if n - 1 > c {
        lemma_row_unmarked_mark(row, c, n - 1);
    } else {
        lemma_row_unmarked_same(row, row.update(c, true), c);
    }
}

proof fn lemma_row_unmarked_same(a: Seq<bool>, b: Seq<bool>, n: int)
    requires
        0 <= n <= a.len(),
        n <= b.len(),
        forall|k: int| 0 <= k < n ==> a[k] == b[k],
    ensures
        row_unmarked(a, n) == row_unmarked(b, n),
    decreases n,
{
    if n > 0 {
        lemma_row_unmarked_same(a, b, n - 1);
    }
}

proof fn lemma_unmarked_update(seen: Seq<Vec<bool>>, t: Seq<Vec<bool>>, r: int, m: int, w: int)
    requires
        0 <= r < m <= seen.len(),
        t.len() == seen.len(),
        forall|k: int| 0 <= k < seen.len() && k != r ==> #[trigger] t[k] == seen[k],
        row_unmarked(t[r]@, w) == row_unmarked(seen[r]@, w) - 1,
    ensures
        unmarked(t, m, w) == unmarked(seen, m, w) - 1,
    decreases m,
{
    if m - 1 > r {
        lemma_unmarked_update(seen, t, r, m - 1, w);
    } else {
        lemma_unmarked_same(seen, t, r, w);
    }
}

proof fn lemma_unmarked_same(a: Seq<Vec<bool>>, b: Seq<Vec<bool>>, m: int, w: int)
    requires
        0 <= m <= a.len(),
        m <= b.len(),
        forall|k: int| 0 <= k < m ==> #[trigger] a[k] == b[k],
    ensures
        unmarked(a, m, w) == unmarked(b, m, w),
    decreases m,
{
    if m > 0 {
        lemma_unmarked_same(a, b, m - 1, w);
    }
}

proof fn lemma_row_unmarked_bounds(row: Seq<bool>, n: int)
    requires
        0 <= n,
    ensures
        0 <= row_unmarked(row, n) <= n,
    decreases n,
{
    if n > 0 {
        lemma_row_unmarked_bounds(row, n - 1);
    }
}

proof fn lemma_unmarked_bounds(seen: Seq<Vec<bool>>, m: int, w: int)
    requires
        0 <= m,
        0 <= w,
    ensures
        0 <= unmarked(seen, m, w) <= m * w,
    decreases m,
{
    if m > 0 {
        lemma_unmarked_bounds(seen, m - 1, w);
        lemma_row_unmarked_bounds(seen[m - 1]@, w);
        assert((m - 1) * w + w == m * w) by (nonlinear_arith);
    }
}

proof fn lemma_growing_on_map(g: Seq<Vec<u8>>, h: int, w: int, areas: Seq<Vec<(i32, i32)>>, group: Seq<(i32, i32)>, ch: u8, i: int)
    requires
        growing(g, h, w, areas, group, ch),
        0 <= i < group.len(),
    ensures
        0 <= group[i].0 < h && 0 <= group[i].1 < w,
{
    reveal(growing);
}

proof fn lemma_seen_stays(
    s1: Seq<Vec<bool>>,
    s2: Seq<Vec<bool>>,
    h: int,
    w: int,
    areas: Seq<Vec<(i32, i32)>>,
    g1: Seq<(i32, i32)>,
    g2: Seq<(i32, i32)>,
)
    requires
        seen_matches(s1, h, w, areas, g1),
        seen_matches(s2, h, w, areas, g2),
        g1.is_prefix_of(g2),
    ensures
        forall|r: int, c: int| 0 <= r < h && 0 <= c < w && #[trigger] s1[r]@[c] ==> s2[r]@[c],
{
    reveal(seen_matches);
    assert forall|r: int, c: int| 0 <= r < h && 0 <= c < w && #[trigger] s1[r]@[c] implies s2[r]@[c] by {
        if g1.contains((r as i32, c as i32)) {
            let k = choose|k: int| 0 <= k < g1.len() && g1[k] == (r as i32, c as i32);
            assert(g2[k] == g1[k]);
        }
    }
}

/// Every cell of character `ch` next to one of the first `i` points of
/// the group is marked.
pub open spec fn closed_upto(g: Seq<Vec<u8>>, h: int, w: int, seen: Seq<Vec<bool>>, group: Seq<(i32, i32)>, ch: u8, i: int) -> bool {
    forall|k: int, q: (i32, i32)| 0 <= k < i && 0 <= q.0 < h && 0 <= q.1 < w && adjacent(#[trigger] group[k], q)
        && at(g, q) == ch ==> #[trigger] seen[q.0 as int]@[q.1 as int]
}

/// The cells marked in `seen` are those listed in `areas` or in `group`.
#[verifier::opaque]
pub open spec fn seen_matches(seen: Seq<Vec<bool>>, h: int, w: int, areas: Seq<Vec<(i32, i32)>>, group: Seq<(i32, i32)>) -> bool {
    &&& seen.len() == h
    &&& forall|r: int| 0 <= r < h ==> (#[trigger] seen[r])@.len() == w
    &&& forall|r: int, c: int| 0 <= r < h && 0 <= c < w ==> (#[trigger] seen[r]@[c]
        <==> (listed(areas, (r as i32, c as i32)) || group.contains((r as i32, c as i32))))
}

/// A region under construction: points on the map, of character `ch`, not
/// listed in `areas`, none twice, each after the first touching an earlier
/// one.
#[verifier::opaque]
pub open spec fn growing(g: Seq<Vec<u8>>, h: int, w: int, areas: Seq<Vec<(i32, i32)>>, group: Seq<(i32, i32)>, ch: u8) -> bool {
    &&& group.len() > 0
    &&& points_on_map(group, h, w)
    &&& forall|k: int| 0 <= k < group.len() ==> at(g, #[trigger] group[k]) == ch
    &&& forall|k: int| 0 <= k < group.len() ==> !listed(areas, #[trigger] group[k])
    &&& forall|k: int, l: int| 0 <= k < l < group.len() ==> #[trigger] group[k] != #[trigger] group[l]
    &&& forall|k: int| 1 <= k < group.len() ==> exists|j: int| 0 <= j < k && adjacent(group[j], #[trigger] group[k])
}

impl AreaMap {
    /// Adds `(qr, qc)` to the growing region where it lies on the map, holds
    /// `ch` and is not marked yet; the region's point `parent` touches it.
    fn visit(
        &self,
        qr: i64,
        qc: i64,
        ch: u8,
        seen: &mut Vec<Vec<bool>>,
        group: &mut Vec<(i32, i32)>,
        Ghost(areas): Ghost<Seq<Vec<(i32, i32)>>>,
        Ghost(parent): Ghost<int>,
    )
        requires
            self.wf(),
            seen_matches(old(seen)@, self.height as int, self.width as int, areas, old(group)@),
            growing(self.origin_map@, self.height as int, self.width as int, areas, old(group)@, ch),
            0 <= parent < old(group)@.len(),
            adjacent(old(group)@[parent], (qr as i32, qc as i32)) || !(0 <= qr < self.height && 0 <= qc < self.width),
            -1 <= qr <= self.height && -1 <= qc <= self.width,
        ensures
            seen_matches(final(seen)@, self.height as int, self.width as int, areas, final(group)@),
            growing(self.origin_map@, self.height as int, self.width as int, areas, final(group)@, ch),
            old(group)@.is_prefix_of(final(group)@),
            same(self.origin_map@, qr as int, qc as int, ch) ==> final(seen)@[qr as int]@[qc as int],
            unmarked(final(seen)@, self.height as int, self.width as int) + final(group)@.len()
                == unmarked(old(seen)@, self.height as int, self.width as int) + old(group)@.len(),
    {
        reveal(seen_matches);
        reveal(growing);
        if 0 <= qr && qr < self.height as i64 && 0 <= qc && qc < self.width as i64 {
            let (r, c) = (qr as usize, qc as usize);
            if !seen[r][c] && self.origin_map[r][c] == ch {
                let q = (qr as i32, qc as i32);
                let ghost before = group@;
                let ghost seen_before = seen@;
                seen[r][c] = true;
                group.push(q);
                proof {
                    assert(seen@[r as int]@ == seen_before[r as int]@.update(c as int, true));
                    lemma_row_unmarked_mark(seen_before[r as int]@, c as int, self.width as int);
                    lemma_unmarked_update(seen_before, seen@, r as int, self.height as int, self.width as int);
                    assert(!before.contains(q));
                    assert(!listed(areas, q));
                    assert forall|rr: int, cc: int| 0 <= rr < self.height && 0 <= cc < self.width implies (#[trigger] seen@[rr]@[cc]
                        <==> (listed(areas, (rr as i32, cc as i32)) || group@.contains((rr as i32, cc as i32)))) by {
                        if rr == r && cc == c {
                            assert(group@[group@.len() - 1] == q);
                        } else {
                            assert(seen@[rr]@[cc] == seen_before[rr]@[cc]);
                            if before.contains((rr as i32, cc as i32)) {
                                let k = choose|k: int| 0 <= k < before.len() && before[k] == (rr as i32, cc as i32);
                                assert(group@[k] == before[k]);
                            }
                            if group@.contains((rr as i32, cc as i32)) {
                                let k = choose|k: int| 0 <= k < group@.len() && group@[k] == (rr as i32, cc as i32);
                                if k < before.len() {
                                    assert(before[k] == group@[k]);
                                }
                            }
                        }
                    }
                    assert forall|k: int, l: int| 0 <= k < l < group@.len() implies #[trigger] group@[k] != #[trigger] group@[l] by {
                        if l == before.len() {
                            assert(before.contains(before[k]));
                        }
                    }
                    assert forall|k: int| 1 <= k < group@.len() implies exists|j: int| 0 <= j < k && adjacent(group@[j], #[trigger] group@[k]) by {
                        if k == before.len() {
                            assert(adjacent(group@[parent], group@[k]));
                        } else {
                            let j = choose|j: int| 0 <= j < k && adjacent(before[j], #[trigger] before[k]);
                            assert(adjacent(group@[j], group@[k]));
                        }
                    }
                    assert(before.is_prefix_of(group@));
                }
            } else {
                assert(group@.is_prefix_of(group@));
            }
        } else {
            assert(group@.is_prefix_of(group@));
        }
    }

    /// Visits the four cells around the region's point `i`.
    fn expand_from(&self, i: usize, ch: u8, seen: &mut Vec<Vec<bool>>, group: &mut Vec<(i32, i32)>, Ghost(areas): Ghost<Seq<Vec<(i32, i32)>>>)
        requires
            self.wf(),
            seen_matches(old(seen)@, self.height as int, self.width as int, areas, old(group)@),
            growing(self.origin_map@, self.height as int, self.width as int, areas, old(group)@, ch),
            i < old(group)@.len(),
            closed_upto(self.origin_map@, self.height as int, self.width as int, old(seen)@, old(group)@, ch, i as int),
        ensures
            seen_matches(final(seen)@, self.height as int, self.width as int, areas, final(group)@),
            growing(self.origin_map@, self.height as int, self.width as int, areas, final(group)@, ch),
            old(group)@.is_prefix_of(final(group)@),
            closed_upto(self.origin_map@, self.height as int, self.width as int, final(seen)@, final(group)@, ch, i + 1),
            unmarked(final(seen)@, self.height as int, self.width as int) + final(group)@.len()
                == unmarked(old(seen)@, self.height as int, self.width as int) + old(group)@.len(),
    {
        let ghost (h, w, g) = (self.height as int, self.width as int, self.origin_map@);
        proof {
            lemma_growing_on_map(g, h, w, areas, group@, ch, i as int);
        }
        let p = group[i];
        let (pr, pc) = (p.0 as i64, p.1 as i64);
        let ghost s0 = seen@;
        let ghost g0 = group@;
        self.visit(pr - 1, pc, ch, seen, group, Ghost(areas), Ghost(i as int));
        let ghost s1 = seen@;
        let ghost g1 = group@;
        self.visit(pr + 1, pc, ch, seen, group, Ghost(areas), Ghost(i as int));
        let ghost s2 = seen@;
        let ghost g2 = group@;
        self.visit(pr, pc - 1, ch, seen, group, Ghost(areas), Ghost(i as int));
        let ghost s3 = seen@;
        let ghost g3 = group@;
        self.visit(pr, pc + 1, ch, seen, group, Ghost(areas), Ghost(i as int));
        proof {
            lemma_seen_stays(s0, seen@, h, w, areas, g0, group@);
            lemma_seen_stays(s1, seen@, h, w, areas, g1, group@);
            lemma_seen_stays(s2, seen@, h, w, areas, g2, group@);
            lemma_seen_stays(s3, seen@, h, w, areas, g3, group@);
            assert(g0.is_prefix_of(group@));
            assert forall|k: int, q: (i32, i32)| 0 <= k < i + 1 && 0 <= q.0 < h && 0 <= q.1 < w
                && adjacent(#[trigger] group@[k], q) && at(g, q) == ch implies #[trigger] seen@[q.0 as int]@[q.1 as int] by {
                assert(group@[k] == g0[k]);
                if k < i {
                    assert(s0[q.0 as int]@[q.1 as int]);
                } else {
                    assert(same(g, q.0 as int, q.1 as int, ch));
                }
            }
        }
    }

    /// Grows the region of the unmarked cell `(r0, c0)`, marking its cells.
    #[verifier::spinoff_prover]
    #[verifier::rlimit(100)]
    fn flood(&self, r0: usize, c0: usize, seen: &mut Vec<Vec<bool>>, Ghost(areas): Ghost<Seq<Vec<(i32, i32)>>>) -> (group: Vec<(i32, i32)>)
        requires
            self.wf(),
            r0 < self.height && c0 < self.width,
            seen_matches(old(seen)@, self.height as int, self.width as int, areas, Seq::empty()),
            !old(seen)@[r0 as int]@[c0 as int],
            forall|a: int| 0 <= a < areas.len() ==> is_region(self.origin_map@, self.height as int, self.width as int, #[trigger] areas[a]@),
        ensures
            seen_matches(final(seen)@, self.height as int, self.width as int, areas, group@),
            is_region(self.origin_map@, self.height as int, self.width as int, group@),
            forall|k: int| 0 <= k < group@.len() ==> !listed(areas, #[trigger] group@[k]),
            forall|k: int, l: int| 0 <= k < l < group@.len() ==> #[trigger] group@[k] != #[trigger] group@[l],
            group@.len() <= self.height * self.width,
            group@.len() > 0 && group@[0] == (r0 as i32, c0 as i32),
    {
        reveal(seen_matches);
        reveal(growing);
        let ghost (h, w) = (self.height as int, self.width as int);
        let ghost g = self.origin_map@;
        let ch = self.origin_map[r0][c0];
        let seed = (r0 as i32, c0 as i32);
        let mut group: Vec<(i32, i32)> = Vec::new();
        let ghost seen0 = seen@;
        let ghost total = unmarked(seen0, h, w);
        seen[r0][c0] = true;
        group.push(seed);
        proof {
            assert(seen@[r0 as int]@ == seen0[r0 as int]@.update(c0 as int, true));
            lemma_row_unmarked_mark(seen0[r0 as int]@, c0 as int, w);
            lemma_unmarked_update(seen0, seen@, r0 as int, h, w);
            lemma_unmarked_bounds(seen0, h, w);
            assert(group@[0] == seed);
            assert(!listed(areas, seed));
            assert forall|rr: int, cc: int| 0 <= rr < h && 0 <= cc < w implies (#[trigger] seen@[rr]@[cc]
                <==> (listed(areas, (rr as i32, cc as i32)) || group@.contains((rr as i32, cc as i32)))) by {
                if rr == r0 && cc == c0 {
                } else {
                    assert(seen@[rr]@[cc] == seen0[rr]@[cc]);
                    assert(!Seq::<(i32, i32)>::empty().contains((rr as i32, cc as i32)));
                    if group@.contains((rr as i32, cc as i32)) {
                        assert(group@[0] == (rr as i32, cc as i32));
                    }
                }
            }
        }
        let mut i: usize = 0;
        while i < group.len()
            invariant
                self.wf(),
                h == self.height && w == self.width,
                g == self.origin_map@,
                ch == at(g, group@[0]),
                group@[0] == seed,
                forall|a: int| 0 <= a < areas.len() ==> is_region(g, h, w, #[trigger] areas[a]@),
                seen_matches(seen@, h, w, areas, group@),
                growing(g, h, w, areas, group@, ch),
                i <= group@.len(),
                unmarked(seen@, h, w) + group@.len() == total,
                0 <= total <= h * w,
                closed_upto(g, h, w, seen@, group@, ch, i as int),
            decreases total - i,
        {
            proof {
                lemma_unmarked_bounds(seen@, h, w);
            }
            let ghost before = group@;
            self.expand_from(i, ch, seen, &mut group, Ghost(areas));
            assert(group@[0] == before[0]);
            i += 1;
        }
        proof {
            lemma_unmarked_bounds(seen@, h, w);
            assert forall|k: int, q: (i32, i32)| 0 <= k < group@.len() && 0 <= q.0 < h && 0 <= q.1 < w
                && adjacent(#[trigger] group@[k], q) && at(g, q) == at(g, group@[k]) implies #[trigger] group@.contains(q) by {
                assert(seen@[q.0 as int]@[q.1 as int]);
                assert(q == (q.0 as int as i32, q.1 as int as i32));
                if listed(areas, q) {
                    let a = choose|a: int| 0 <= a < areas.len() && #[trigger] areas[a]@.contains(q);
                    let j = choose|j: int| 0 <= j < areas[a]@.len() && areas[a]@[j] == q;
                    assert(is_region(g, h, w, areas[a]@));
                    assert(adjacent(areas[a]@[j], group@[k]));
                    assert(areas[a]@.contains(group@[k]));
                    assert(listed(areas, group@[k]));
                }
            }
        }
        group
    }

    /// Takes a map whose rows have equal length and splits it into regions;
    /// `None` where the map is empty, ragged or too large.
    pub fn from_rows(origin_map: Vec<Vec<u8>>) -> (r: Option<AreaMap>)
        ensures
            r is Some <==> 0 < origin_map@.len() <= GARDEN_SIDE_MAX && 0 < origin_map@[0]@.len() <= GARDEN_SIDE_MAX
                && forall|k: int| 0 <= k < origin_map@.len() ==> (#[trigger] origin_map@[k])@.len() == origin_map@[0]@.len(),
            r matches Some(m) ==> {
                &&& m.wf()
                &&& m.origin_map@ == origin_map@
                &&& forall|a: int| 0 <= a < m.areas@.len() ==> is_region(m.origin_map@, m.height as int, m.width as int,
                    #[trigger] m.areas@[a]@)
                &&& listed_once(m.areas@)
                &&& forall|r: int, c: int| 0 <= r < m.height && 0 <= c < m.width ==> #[trigger] listed(m.areas@, (r as i32, c as i32))
            },
    {
        let h = origin_map.len();
        if h == 0 || h > GARDEN_SIDE_MAX as usize {
            return None;
        }
        let w = origin_map[0].len();
        if w == 0 || w > GARDEN_SIDE_MAX as usize {
            return None;
        }
        let mut k: usize = 0;
        while k < h
            invariant
                h == origin_map@.len(),
                w == origin_map@[0]@.len(),
                k <= h,
                forall|m: int| 0 <= m < k ==> (#[trigger] origin_map@[m])@.len() == w,
            decreases h - k,
        {
            if origin_map[k].len() != w {
                return None;
            }
            k += 1;
        }
        let mut m = AreaMap { origin_map, areas: Vec::new(), width: w as i32, height: h as i32 };
        m.group_region_points_into_areas();
        Some(m)
    }

    /// Splits the map into its regions: maximal groups of side-by-side cells
    /// of one character, each listed from a first cell, in reading order of
    /// those first cells.
    pub fn group_region_points_into_areas(&mut self)
        requires
            old(self).wf(),
        ensures
            final(self).wf(),
            final(self).origin_map@ == old(self).origin_map@,
            final(self).height == old(self).height && final(self).width == old(self).width,
            forall|a: int| 0 <= a < final(self).areas@.len() ==> is_region(final(self).origin_map@,
                final(self).height as int, final(self).width as int, #[trigger] final(self).areas@[a]@),
            listed_once(final(self).areas@),
            forall|r: int, c: int| 0 <= r < final(self).height && 0 <= c < final(self).width
                ==> #[trigger] listed(final(self).areas@, (r as i32, c as i32)),
    {
        let ghost (h, w, g) = (self.height as int, self.width as int, self.origin_map@);
        let hu = self.height as usize;
        let wu = self.width as usize;
        let mut seen: Vec<Vec<bool>> = Vec::new();
        let mut k: usize = 0;
        while k < hu
            invariant
                k <= hu,
                seen@.len() == k,
                forall|r: int| 0 <= r < k ==> (#[trigger] seen@[r])@.len() == wu,
                forall|r: int, c: int| 0 <= r < k && 0 <= c < wu ==> !#[trigger] seen@[r]@[c],
            decreases hu - k,
        {
            let mut row: Vec<bool> = Vec::new();
            let mut j: usize = 0;
            while j < wu
                invariant
                    j <= wu,
                    row@.len() == j,
                    forall|c: int| 0 <= c < j ==> !#[trigger] row@[c],
                decreases wu - j,
            {
                row.push(false);
                j += 1;
            }
            seen.push(row);
            k += 1;
        }
        let mut areas: Vec<Vec<(i32, i32)>> = Vec::new();
        proof {
            reveal(seen_matches);
            assert(forall|p: (i32, i32)| !#[trigger] listed(areas@, p));
            assert(forall|p: (i32, i32)| !#[trigger] Seq::<(i32, i32)>::empty().contains(p));
        }
        let mut r: usize = 0;
        while r < hu
            invariant
                self.wf(),
                hu == self.height && wu == self.width,
                h == self.height && w == self.width && g == self.origin_map@,
                self.origin_map@ == old(self).origin_map@,
                self.height == old(self).height && self.width == old(self).width,
                r <= hu,
                seen_matches(seen@, h, w, areas@, Seq::empty()),
                forall|a: int| 0 <= a < areas@.len() ==> is_region(g, h, w, #[trigger] areas@[a]@)
                    && areas@[a]@.len() <= u32::MAX,
                listed_once(areas@),
                forall|rr: int, cc: int| 0 <= rr < r && 0 <= cc < w ==> #[trigger] listed(areas@, (rr as i32, cc as i32)),
            decreases hu - r,
        {
            let mut c: usize = 0;
            while c < wu
                invariant
                    self.wf(),
                    hu == self.height && wu == self.width,
                    h == self.height && w == self.width && g == self.origin_map@,
                    self.origin_map@ == old(self).origin_map@,
                    self.height == old(self).height && self.width == old(self).width,
                    r < hu,
                    c <= wu,
                    seen_matches(seen@, h, w, areas@, Seq::empty()),
                    forall|a: int| 0 <= a < areas@.len() ==> is_region(g, h, w, #[trigger] areas@[a]@)
                        && areas@[a]@.len() <= u32::MAX,
                    listed_once(areas@),
                    forall|rr: int, cc: int| 0 <= rr < r && 0 <= cc < w ==> #[trigger] listed(areas@, (rr as i32, cc as i32)),
                    forall|cc: int| 0 <= cc < c ==> #[trigger] listed(areas@, (r as i32, cc as i32)),
                decreases wu - c,
            {
                proof {
                    reveal(seen_matches);
                }
                if !seen[r][c] {
                    let group = self.flood(r, c, &mut seen, Ghost(areas@));
                    let ghost old_areas = areas@;
                    proof {
                        assert(h * w <= GARDEN_SIDE_MAX * GARDEN_SIDE_MAX) by (nonlinear_arith)
                            requires
                                0 < h <= GARDEN_SIDE_MAX,
                                0 < w <= GARDEN_SIDE_MAX,
                        ;
                    }
                    areas.push(group);
                    proof {
                        reveal(seen_matches);
                        let na = areas@;
                        assert(na[na.len() - 1] == group);
                        assert forall|p: (i32, i32)| #[trigger] listed(na, p) <==> (listed(old_areas, p) || group@.contains(p)) by {
                            if listed(na, p) {
                                let a = choose|a: int| 0 <= a < na.len() && #[trigger] na[a]@.contains(p);
                                if a < old_areas.len() {
                                    assert(old_areas[a] == na[a]);
                                }
                            }
                            if listed(old_areas, p) {
                                let a = choose|a: int| 0 <= a < old_areas.len() && #[trigger] old_areas[a]@.contains(p);
                                assert(na[a] == old_areas[a]);
                            }
                            if group@.contains(p) {
                                assert(na[na.len() - 1]@.contains(p));
                            }
                        }
                        assert(group@[0] == (r as i32, c as i32));
                        assert(group@.contains((r as i32, c as i32)));
                        assert forall|a: int| 0 <= a < na.len() implies is_region(g, h, w, #[trigger] na[a]@)
                            && na[a]@.len() <= u32::MAX by {
                            if a < old_areas.len() {
                                assert(na[a] == old_areas[a]);
                            }
                        }
                        assert forall|a: int, b: int, p: (i32, i32)| 0 <= a < b < na.len() && #[trigger] na[a]@.contains(p)
                            implies !#[trigger] na[b]@.contains(p) by {
                            assert(na[a] == old_areas[a]);
                            if b < old_areas.len() {
                                assert(na[b] == old_areas[b]);
                            } else {
                                assert(listed(old_areas, p));
                                if group@.contains(p) {
                                    let k = choose|k: int| 0 <= k < group@.len() && group@[k] == p;
                                    assert(!listed(old_areas, group@[k]));
                                }
                            }
                        }
                        assert forall|a: int, k: int, l: int| 0 <= a < na.len() && 0 <= k < l < na[a]@.len()
                            implies #[trigger] na[a]@[k] != #[trigger] na[a]@[l] by {
                            if a < old_areas.len() {
                                assert(na[a] == old_areas[a]);
                            }
                        }
                        assert forall|rr: int, cc: int| 0 <= rr < h && 0 <= cc < w implies (#[trigger] seen@[rr]@[cc]
                            <==> (listed(na, (rr as i32, cc as i32)) || Seq::<(i32, i32)>::empty().contains((rr as i32, cc as i32)))) by {}
                    }
                } else {
                    proof {
                        assert(listed(areas@, (r as i32, c as i32)) || Seq::<(i32, i32)>::empty().contains((r as i32, c as i32)));
                    }
                }
                c += 1;
            }
            r += 1;
        }
        self.areas = areas;
    }
}

} // verus!
