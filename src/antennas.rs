//! Antennas of one frequency create antinodes on the cells in line with
//! each pair: at twice the distance (first model), or at every multiple of
//! the distance (second model), as far as the map reaches.
use vstd::prelude::*;
use std::collections::HashSet;

verus! {

/// Largest map side the antinode arithmetic is made for.
pub const MAP_SIDE_MAX: u32 = 1073741824;

/// The key of cell `(r, c)` in a map `w` cells wide.
pub open spec fn key_at(r: int, c: int, w: int) -> u64 {
    (r * w + c) as u64
}

pub open spec fn on_map(r: int, c: int, h: int, w: int) -> bool {
    0 <= r < h && 0 <= c < w
}

/// Keys of the in-map cells among `p + (p - q)` and `q + (q - p)`.
pub open spec fn pair_antinodes(p: (i32, i32), q: (i32, i32), h: int, w: int) -> Set<u64> {
    let (ar, ac) = (2 * p.0 - q.0, 2 * p.1 - q.1);
    let (br, bc) = (2 * q.0 - p.0, 2 * q.1 - p.1);
    (if on_map(ar, ac, h, w) { set![key_at(ar, ac, w)] } else { Set::empty() }).union(
        if on_map(br, bc, h, w) { set![key_at(br, bc, w)] } else { Set::empty() },
    )
}

/// Keys of the in-map cells `p + k * (p - q)`, `k >= 0`.
pub open spec fn ray(p: (i32, i32), q: (i32, i32), h: int, w: int) -> Set<u64> {
    Set::new(|key: u64| exists|k: nat| #[trigger] on_map(p.0 + k * (p.0 - q.0), p.1 + k * (p.1 - q.1), h, w)
        && key == key_at(p.0 + k * (p.0 - q.0), p.1 + k * (p.1 - q.1), w))
}

/// Antinodes of the points `pts[i]` paired with `pts[j]` for `i < j`, over
/// the pairs whose first index is below `n`; `line` picks the model.
pub open spec fn group_antinodes(pts: Seq<(i32, i32)>, n: int, h: int, w: int, line: bool) -> Set<u64>
    decreases n,
{
    if n <= 0 {
        Set::empty()
    } else {
        group_antinodes(pts, n - 1, h, w, line).union(row_antinodes(pts, n - 1, pts.len() as int, h, w, line))
    }
}

/// Antinodes of `pts[i]` paired with `pts[j]` for `i < j < m`.
pub open spec fn row_antinodes(pts: Seq<(i32, i32)>, i: int, m: int, h: int, w: int, line: bool) -> Set<u64>
    decreases m,
{
    if m <= i + 1 || m <= 0 {
        Set::empty()
    } else {
        row_antinodes(pts, i, m - 1, h, w, line).union(
            if line {
                ray(pts[i], pts[m - 1], h, w).union(ray(pts[m - 1], pts[i], h, w))
            } else {
                pair_antinodes(pts[i], pts[m - 1], h, w)
            },
        )
    }
}

/// Antinodes of the first `n` frequency groups.
pub open spec fn all_antinodes(groups: Seq<(u8, Vec<(i32, i32)>)>, n: int, h: int, w: int, line: bool) -> Set<u64>
    decreases n,
{
    if n <= 0 {
        Set::empty()
    } else {
        all_antinodes(groups, n - 1, h, w, line).union(
            group_antinodes(groups[n - 1].1@, groups[n - 1].1@.len() as int, h, w, line),
        )
    }
}

/// The points lie on the map and no point is listed twice.
pub open spec fn points_ok(pts: Seq<(i32, i32)>, h: int, w: int) -> bool {
    &&& forall|i: int| 0 <= i < pts.len() ==> on_map((#[trigger] pts[i]).0 as int, pts[i].1 as int, h, w)
    &&& forall|i: int, j: int| 0 <= i < j < pts.len() ==> #[trigger] pts[i] != #[trigger] pts[j]
}

fn add_cell(set: &mut HashSet<u64>, r: i64, c: i64, h: u32, w: u32)
    requires
        0 < h <= MAP_SIDE_MAX,
        0 < w <= MAP_SIDE_MAX,
    ensures
        final(set)@ == old(set)@.union(
            if on_map(r as int, c as int, h as int, w as int) { set![key_at(r as int, c as int, w as int)] } else { Set::empty() },
        ),
{
    broadcast use vstd::std_specs::hash::group_hash_axioms;
    let ghost s0 = set@;
    if 0 <= r && r < h as i64 && 0 <= c && c < w as i64 {
        assert(0 <= r * (w as int) <= MAP_SIDE_MAX * MAP_SIDE_MAX) by (nonlinear_arith)
            requires
                0 <= r <= MAP_SIDE_MAX,
                0 < w <= MAP_SIDE_MAX,
        ;
        let key = (r as u64) * (w as u64) + (c as u64);
        set.insert(key);
        assert(set@ =~= s0.union(set![key_at(r as int, c as int, w as int)]));
    } else {
        assert(set@ =~= s0.union(Set::empty()));
    }
}

/// Once a point of `x + k * d` has left `[0, m)` after being inside, it
/// stays outside.
proof fn lemma_leaves_for_good(x: int, d: int, m: int, k: int, j: int)
    requires
        1 <= k <= j,
        0 <= x + (k - 1) * d < m,
        !(0 <= x + k * d < m),
    ensures
        !(0 <= x + j * d < m),
{
    assert(x + k * d == x + (k - 1) * d + d) by (nonlinear_arith);
    if d >= 0 {
        assert(x + j * d >= x + k * d) by (nonlinear_arith)
            requires
                j >= k,
                d >= 0,
        ;
    } else {
        assert(x + j * d <= x + k * d) by (nonlinear_arith)
            requires
                j >= k,
                d < 0,
        ;
    }
}

/// Steps left, going by `(d0, d1)` from `(r, c)`, before leaving the map.
pub open spec fn steps_left(r: int, c: int, d0: int, d1: int, h: int, w: int) -> int {
    let m = if d0 > 0 { h - r } else if d0 < 0 { r + 1 } else if d1 > 0 { w - c } else { c + 1 };
    if m < 0 {
        0
    } else {
        m
    }
}

/// Adds the in-map cells `p + k * (p - q)`, `k >= 0`.
fn walk_ray(set: &mut HashSet<u64>, p: (i32, i32), q: (i32, i32), h: u32, w: u32)
    requires
        0 < h <= MAP_SIDE_MAX,
        0 < w <= MAP_SIDE_MAX,
        on_map(p.0 as int, p.1 as int, h as int, w as int),
        p != q,
    ensures
        final(set)@ == old(set)@.union(ray(p, q, h as int, w as int)),
{
    let ghost (hh, ww) = (h as int, w as int);
    let ghost (dr, dc) = (p.0 - q.0, p.1 - q.1);
    let ghost s0 = set@;
    let d0 = p.0 as i64 - q.0 as i64;
    let d1 = p.1 as i64 - q.1 as i64;
    let mut r = p.0 as i64;
    let mut c = p.1 as i64;
    let ghost mut k: nat = 0;
    while 0 <= r && r < h as i64 && 0 <= c && c < w as i64
        invariant
            0 < h <= MAP_SIDE_MAX,
            0 < w <= MAP_SIDE_MAX,
            hh == h as int && ww == w as int,
            dr == p.0 - q.0 && dc == p.1 - q.1,
            p != q,
            on_map(p.0 as int, p.1 as int, hh, ww),
            d0 == dr && d1 == dc,
            d0 != 0 || d1 != 0,
            -2147483648 <= d0 <= 4294967295 && -4294967295 <= d0,
            -4294967295 <= d1 <= 4294967295,
            r == p.0 + k * dr,
            c == p.1 + k * dc,
            -4294967296 * 2 <= r <= 4294967296 * 2,
            -4294967296 * 2 <= c <= 4294967296 * 2,
            k == 0 || on_map(p.0 + (k - 1) * dr, p.1 + (k - 1) * dc, hh, ww),
            k > 0 || on_map(r as int, c as int, hh, ww),
            set@ == s0.union(Set::new(|key: u64| exists|j: nat| j < k && #[trigger] on_map(p.0 + j * dr, p.1 + j * dc, hh, ww)
                && key == key_at(p.0 + j * dr, p.1 + j * dc, ww))),
        decreases steps_left(r as int, c as int, d0 as int, d1 as int, hh, ww),
    {
        assert(0 <= r < hh && 0 <= c < ww);
        assert(r as int == p.0 + k * dr);
        assert(on_map(p.0 + k * dr, p.1 + k * dc, hh, ww));
        add_cell(set, r, c, h, w);
        proof {
            assert(p.0 + (k + 1) * dr == r + dr) by (nonlinear_arith)
                requires
                    r == p.0 + k * dr,
            ;
            assert(p.1 + (k + 1) * dc == c + dc) by (nonlinear_arith)
                requires
                    c == p.1 + k * dc,
            ;
            assert(set@ =~= s0.union(Set::new(|key: u64| exists|j: nat| j < k + 1 && #[trigger] on_map(p.0 + j * dr, p.1 + j * dc, hh, ww)
                && key == key_at(p.0 + j * dr, p.1 + j * dc, ww)))) by {
                assert forall|key: u64| set@.contains(key) <==> s0.union(Set::new(|key: u64| exists|j: nat| j < k + 1
                    && #[trigger] on_map(p.0 + j * dr, p.1 + j * dc, hh, ww) && key == key_at(p.0 + j * dr, p.1 + j * dc, ww))).contains(key) by {
                    if key == key_at(r as int, c as int, ww) {
                        assert(on_map(p.0 + k * dr, p.1 + k * dc, hh, ww));
                    }
                }
            }
        }
        r = r + d0;
        c = c + d1;
        proof {
            k = k + 1;
        }
    }
    proof {
        assert(k >= 1);
        assert forall|j: nat| j >= k implies !#[trigger] on_map(p.0 + j * dr, p.1 + j * dc, hh, ww) by {
            if !(0 <= r < hh) {
                lemma_leaves_for_good(p.0 as int, dr, hh, k as int, j as int);
            } else {
                lemma_leaves_for_good(p.1 as int, dc, ww, k as int, j as int);
            }
        }
        assert(set@ =~= s0.union(ray(p, q, hh, ww))) by {
            assert forall|key: u64| set@.contains(key) <==> s0.union(ray(p, q, hh, ww)).contains(key) by {
                if ray(p, q, hh, ww).contains(key) {
                    let j = choose|j: nat| #[trigger] on_map(p.0 + j * (p.0 - q.0), p.1 + j * (p.1 - q.1), hh, ww)
                        && key == key_at(p.0 + j * (p.0 - q.0), p.1 + j * (p.1 - q.1), ww);
                    assert(j < k);
                }
            }
        }
    }
}

/// Antennas grouped by frequency, and the antinodes found for the two
/// models, as cell keys.
pub struct SignalMap {
    pub signal_point: Vec<(u8, Vec<(i32, i32)>)>,
    pub antinodes: HashSet<u64>,
    pub antinodes_without_limit: HashSet<u64>,
    pub map_height: u32,
    pub map_width: u32,
}

pub open spec fn is_antenna(c: u8) -> bool {
    (48 <= c <= 57) || (65 <= c <= 90) || (97 <= c <= 122)
}

/// `a` comes before `b` in reading order.
pub open spec fn before(a: (i32, i32), b: (i32, i32)) -> bool {
    a.0 < b.0 || (a.0 == b.0 && a.1 < b.1)
}

/// Each group lists points of its own frequency, in reading order, all
/// before `(r, c)`; frequencies differ between groups.
pub open spec fn groups_ok(rows: Seq<Vec<u8>>, groups: Seq<(u8, Vec<(i32, i32)>)>, r: int, c: int) -> bool {
    &&& forall|g: int, k: int| 0 <= g < groups.len() && 0 <= k < groups[g].1@.len() ==> {
        let p = #[trigger] groups[g].1@[k];
        &&& 0 <= p.0 < rows.len() && 0 <= p.1 < rows[p.0 as int]@.len()
        &&& rows[p.0 as int]@[p.1 as int] == groups[g].0
        &&& before(p, (r as i32, c as i32))
    }
    &&& forall|g: int, k: int, l: int| 0 <= g < groups.len() && 0 <= k < l < groups[g].1@.len()
        ==> before(#[trigger] groups[g].1@[k], #[trigger] groups[g].1@[l])
    &&& forall|g: int, e: int| 0 <= g < e < groups.len() ==> (#[trigger] groups[g]).0 != (#[trigger] groups[e]).0
}

/// Every antenna before `(r, c)` is listed in the group of its frequency.
pub open spec fn all_listed(rows: Seq<Vec<u8>>, groups: Seq<(u8, Vec<(i32, i32)>)>, r: int, c: int) -> bool {
    forall|rr: int, cc: int| 0 <= rr < rows.len() && 0 <= cc < rows[rr]@.len() && (rr < r || (rr == r && cc < c))
        && is_antenna(#[trigger] rows[rr]@[cc]) ==> exists|g: int| 0 <= g < groups.len() && groups[g].0 == rows[rr]@[cc]
            && #[trigger] groups[g].1@.contains((rr as i32, cc as i32))
}

impl SignalMap {
    /// Groups the antennas of a map, given as rows of bytes of equal length,
    /// by frequency (digits and letters); `None` where the map is empty,
    /// ragged or too large.
    pub fn from_rows(rows: &Vec<Vec<u8>>) -> (r: Option<SignalMap>)
        ensures
            r is Some <==> 0 < rows@.len() <= MAP_SIDE_MAX && 0 < rows@[0]@.len() <= MAP_SIDE_MAX
                && forall|k: int| 0 <= k < rows@.len() ==> (#[trigger] rows@[k])@.len() == rows@[0]@.len(),
            r matches Some(m) ==> {
                &&& m.wf()
                &&& m.map_height == rows@.len() && m.map_width == rows@[0]@.len()
                &&& m.antinodes@ == Set::<u64>::empty() && m.antinodes_without_limit@ == Set::<u64>::empty()
                &&& groups_ok(rows@, m.signal_point@, rows@.len() as int, 0)
                &&& all_listed(rows@, m.signal_point@, rows@.len() as int, 0)
            },
    {
        let h = rows.len();
        if h == 0 || h > MAP_SIDE_MAX as usize {
            return None;
        }
        let w = rows[0].len();
        if w == 0 || w > MAP_SIDE_MAX as usize {
            return None;
        }
        let mut k: usize = 0;
        while k < h
            invariant
                h == rows@.len(),
                w == rows@[0]@.len(),
                k <= h,
                forall|m: int| 0 <= m < k ==> (#[trigger] rows@[m])@.len() == w,
            decreases h - k,
        {
            if rows[k].len() != w {
                return None;
            }
            k += 1;
        }
        let mut groups: Vec<(u8, Vec<(i32, i32)>)> = Vec::new();
        let mut r: usize = 0;
        while r < h
            invariant
                h == rows@.len(),
                0 < h <= MAP_SIDE_MAX,
                0 < w <= MAP_SIDE_MAX,
                forall|m: int| 0 <= m < h ==> (#[trigger] rows@[m])@.len() == w,
                r <= h,
                groups_ok(rows@, groups@, r as int, 0),
                all_listed(rows@, groups@, r as int, 0),
            decreases h - r,
        {
            let mut c: usize = 0;
            while c < w
                invariant
                    h == rows@.len(),
                    0 < h <= MAP_SIDE_MAX,
                    0 < w <= MAP_SIDE_MAX,
                    forall|m: int| 0 <= m < h ==> (#[trigger] rows@[m])@.len() == w,
                    r < h,
                    c <= w,
                    groups_ok(rows@, groups@, r as int, c as int),
                    all_listed(rows@, groups@, r as int, c as int),
                decreases w - c,
            {
                let ch = rows[r][c];
                let ghost g0 = groups@;
                if (48 <= ch && ch <= 57) || (65 <= ch && ch <= 90) || (97 <= ch && ch <= 122) {
                    let mut gi: usize = 0;
                    while gi < groups.len() && groups[gi].0 != ch
                        invariant
                            gi <= groups@.len(),
                            forall|e: int| 0 <= e < gi ==> (#[trigger] groups@[e]).0 != ch,
                        decreases groups@.len() - gi,
                    {
                        gi += 1;
                    }
                    let point = (r as i32, c as i32);
                    if gi < groups.len() {
                        groups[gi].1.push(point);
                    } else {
                        let mut one: Vec<(i32, i32)> = Vec::new();
                        one.push(point);
                        groups.push((ch, one));
                    }
                    proof {
                        let last = groups@[gi as int].1@.len() - 1;
                        assert(groups@[gi as int].1@[last] == point);
                        assert(groups@[gi as int].1@.contains(point));
                        assert forall|e: int| 0 <= e < groups@.len() && e != gi implies #[trigger] groups@[e] == g0[e] by {}
                        assert forall|rr: int, cc: int| 0 <= rr < rows@.len() && 0 <= cc < rows@[rr]@.len()
                            && (rr < r || (rr == r && cc < c + 1)) && is_antenna(#[trigger] rows@[rr]@[cc])
                            implies exists|g: int| 0 <= g < groups@.len() && groups@[g].0 == rows@[rr]@[cc]
                                && #[trigger] groups@[g].1@.contains((rr as i32, cc as i32)) by {
                            if rr == r && cc == c {
                                assert(groups@[gi as int].0 == ch);
                                let last = groups@[gi as int].1@.len() - 1;
                                assert(groups@[gi as int].1@[last] == point);
                            } else {
                                let g = choose|g: int| 0 <= g < g0.len() && g0[g].0 == rows@[rr]@[cc]
                                    && #[trigger] g0[g].1@.contains((rr as i32, cc as i32));
                                let k = choose|k: int| 0 <= k < g0[g].1@.len() && g0[g].1@[k] == (rr as i32, cc as i32);
                                assert(groups@[g].1@[k] == (rr as i32, cc as i32));
                                assert(groups@[g].1@.contains((rr as i32, cc as i32)));
                            }
                        }
                    }
                }
                c += 1;
            }
            r += 1;
        }
        Some(SignalMap {
            signal_point: groups,
            antinodes: HashSet::new(),
            antinodes_without_limit: HashSet::new(),
            map_height: h as u32,
            map_width: w as u32,
        })
    }

    /// The map size is in range, and each group's points lie on the map,
    /// none listed twice.
    pub open spec fn wf(&self) -> bool {
        &&& 0 < self.map_height <= MAP_SIDE_MAX
        &&& 0 < self.map_width <= MAP_SIDE_MAX
        &&& forall|g: int| 0 <= g < self.signal_point@.len() ==>
            points_ok((#[trigger] self.signal_point@[g]).1@, self.map_height as int, self.map_width as int)
    }

    /// Adds the antinodes at twice the distance of every pair of antennas
    /// of every frequency.
    pub fn detect_antinodes(&mut self)
        requires
            old(self).wf(),
        ensures
            final(self).antinodes@ == old(self).antinodes@.union(all_antinodes(old(self).signal_point@,
                old(self).signal_point@.len() as int, old(self).map_height as int, old(self).map_width as int, false)),
            final(self).antinodes_without_limit@ == old(self).antinodes_without_limit@,
            final(self).signal_point@ == old(self).signal_point@,
            final(self).map_height == old(self).map_height && final(self).map_width == old(self).map_width,
    {
        let mut g: usize = 0;
        while g < self.signal_point.len()
            invariant
                self.wf(),
                g <= self.signal_point@.len(),
                self.signal_point@ == old(self).signal_point@,
                self.map_height == old(self).map_height && self.map_width == old(self).map_width,
                self.antinodes_without_limit@ == old(self).antinodes_without_limit@,
                self.antinodes@ == old(self).antinodes@.union(all_antinodes(self.signal_point@, g as int,
                    self.map_height as int, self.map_width as int, false)),
            decreases self.signal_point@.len() - g,
        {
            let ghost before = self.antinodes@;
            let points = copy_points(&self.signal_point[g].1);
            assert(points_ok(self.signal_point@[g as int].1@, self.map_height as int, self.map_width as int));
            self.detect_antinodes_for_one_frequency(points.as_slice());
            assert(self.antinodes@ =~= old(self).antinodes@.union(all_antinodes(self.signal_point@, g + 1,
                self.map_height as int, self.map_width as int, false)));
            g += 1;
        }
    }

    /// Adds the antinodes at twice the distance of every pair of `point_vec`.
    pub fn detect_antinodes_for_one_frequency(&mut self, point_vec: &[(i32, i32)])
        requires
            0 < old(self).map_height <= MAP_SIDE_MAX,
            0 < old(self).map_width <= MAP_SIDE_MAX,
        ensures
            final(self).antinodes@ == old(self).antinodes@.union(group_antinodes(point_vec@, point_vec@.len() as int,
                old(self).map_height as int, old(self).map_width as int, false)),
            final(self).antinodes_without_limit@ == old(self).antinodes_without_limit@,
            final(self).signal_point@ == old(self).signal_point@,
            final(self).map_height == old(self).map_height && final(self).map_width == old(self).map_width,
    {
        let (h, w) = (self.map_height, self.map_width);
        let ghost (hh, ww) = (h as int, w as int);
        let ghost pts = point_vec@;
        let n = point_vec.len();
        let mut i: usize = 0;
        while i < n
            invariant
                0 < h <= MAP_SIDE_MAX && 0 < w <= MAP_SIDE_MAX,
                hh == h && ww == w,
                h == self.map_height && w == self.map_width,
                pts == point_vec@,
                n == pts.len(),
                i <= n,
                self.signal_point@ == old(self).signal_point@,
                self.map_height == old(self).map_height && self.map_width == old(self).map_width,
                self.antinodes_without_limit@ == old(self).antinodes_without_limit@,
                self.antinodes@ == old(self).antinodes@.union(group_antinodes(pts, i as int, hh, ww, false)),
            decreases n - i,
        {
            let mut j: usize = i + 1;
            while j < n
                invariant
                    0 < h <= MAP_SIDE_MAX && 0 < w <= MAP_SIDE_MAX,
                    hh == h && ww == w,
                    h == self.map_height && w == self.map_width,
                    pts == point_vec@,
                    n == pts.len(),
                    i < n,
                    i < j <= n,
                    self.signal_point@ == old(self).signal_point@,
                    self.map_height == old(self).map_height && self.map_width == old(self).map_width,
                    self.antinodes_without_limit@ == old(self).antinodes_without_limit@,
                    self.antinodes@ == old(self).antinodes@.union(group_antinodes(pts, i as int, hh, ww, false))
                        .union(row_antinodes(pts, i as int, j as int, hh, ww, false)),
                decreases n - j,
            {
                let a = point_vec[i];
                let b = point_vec[j];
                let ghost before = self.antinodes@;
                add_cell(&mut self.antinodes, 2 * (a.0 as i64) - b.0 as i64, 2 * (a.1 as i64) - b.1 as i64, h, w);
                add_cell(&mut self.antinodes, 2 * (b.0 as i64) - a.0 as i64, 2 * (b.1 as i64) - a.1 as i64, h, w);
                assert(self.antinodes@ =~= before.union(pair_antinodes(a, b, hh, ww)));
                assert(self.antinodes@ =~= old(self).antinodes@.union(group_antinodes(pts, i as int, hh, ww, false))
                    .union(row_antinodes(pts, i as int, j + 1, hh, ww, false)));
                j += 1;
            }
            assert(group_antinodes(pts, i + 1, hh, ww, false) == group_antinodes(pts, i as int, hh, ww, false)
                .union(row_antinodes(pts, i as int, n as int, hh, ww, false)));
            assert(self.antinodes@ =~= old(self).antinodes@.union(group_antinodes(pts, i + 1, hh, ww, false)));
            i += 1;
        }
    }

    /// Adds the antinodes at every multiple of the distance of every pair of
    /// antennas of every frequency.
    pub fn detect_antinodes_without_distance_limit(&mut self)
        requires
            old(self).wf(),
        ensures
            final(self).antinodes_without_limit@ == old(self).antinodes_without_limit@.union(all_antinodes(
                old(self).signal_point@, old(self).signal_point@.len() as int, old(self).map_height as int,
                old(self).map_width as int, true)),
            final(self).antinodes@ == old(self).antinodes@,
            final(self).signal_point@ == old(self).signal_point@,
            final(self).map_height == old(self).map_height && final(self).map_width == old(self).map_width,
    {
        let mut g: usize = 0;
        while g < self.signal_point.len()
            invariant
                self.wf(),
                g <= self.signal_point@.len(),
                self.signal_point@ == old(self).signal_point@,
                self.map_height == old(self).map_height && self.map_width == old(self).map_width,
                self.antinodes@ == old(self).antinodes@,
                self.antinodes_without_limit@ == old(self).antinodes_without_limit@.union(all_antinodes(
                    self.signal_point@, g as int, self.map_height as int, self.map_width as int, true)),
            decreases self.signal_point@.len() - g,
        {
            let points = copy_points(&self.signal_point[g].1);
            assert(points_ok(self.signal_point@[g as int].1@, self.map_height as int, self.map_width as int));
            self.detect_antinodes_without_distance_limit_for_one_requency(points.as_slice());
            assert(self.antinodes_without_limit@ =~= old(self).antinodes_without_limit@.union(all_antinodes(
                self.signal_point@, g + 1, self.map_height as int, self.map_width as int, true)));
            g += 1;
        }
    }

    /// Adds the antinodes at every multiple of the distance of every pair
    /// of `point_vec`, the antennas themselves included.
    pub fn detect_antinodes_without_distance_limit_for_one_requency(&mut self, point_vec: &[(i32, i32)])
        requires
            0 < old(self).map_height <= MAP_SIDE_MAX,
            0 < old(self).map_width <= MAP_SIDE_MAX,
            points_ok(point_vec@, old(self).map_height as int, old(self).map_width as int),
        ensures
            final(self).antinodes_without_limit@ == old(self).antinodes_without_limit@.union(group_antinodes(
                point_vec@, point_vec@.len() as int, old(self).map_height as int, old(self).map_width as int, true)),
            final(self).antinodes@ == old(self).antinodes@,
            final(self).signal_point@ == old(self).signal_point@,
            final(self).map_height == old(self).map_height && final(self).map_width == old(self).map_width,
    {
        let (h, w) = (self.map_height, self.map_width);
        let ghost (hh, ww) = (h as int, w as int);
        let ghost pts = point_vec@;
        let n = point_vec.len();
        let mut i: usize = 0;
        while i < n
            invariant
                0 < h <= MAP_SIDE_MAX && 0 < w <= MAP_SIDE_MAX,
                hh == h && ww == w,
                h == self.map_height && w == self.map_width,
                pts == point_vec@,
                points_ok(pts, hh, ww),
                n == pts.len(),
                i <= n,
                self.signal_point@ == old(self).signal_point@,
                self.map_height == old(self).map_height && self.map_width == old(self).map_width,
                self.antinodes@ == old(self).antinodes@,
                self.antinodes_without_limit@ == old(self).antinodes_without_limit@.union(group_antinodes(pts, i as int, hh, ww, true)),
            decreases n - i,
        {
            let mut j: usize = i + 1;
            while j < n
                invariant
                    0 < h <= MAP_SIDE_MAX && 0 < w <= MAP_SIDE_MAX,
                    hh == h && ww == w,
                    h == self.map_height && w == self.map_width,
                    pts == point_vec@,
                    points_ok(pts, hh, ww),
                    n == pts.len(),
                    i < n,
                    i < j <= n,
                    self.signal_point@ == old(self).signal_point@,
                    self.map_height == old(self).map_height && self.map_width == old(self).map_width,
                    self.antinodes@ == old(self).antinodes@,
                    self.antinodes_without_limit@ == old(self).antinodes_without_limit@.union(
                        group_antinodes(pts, i as int, hh, ww, true)).union(row_antinodes(pts, i as int, j as int, hh, ww, true)),
                decreases n - j,
            {
                let a = point_vec[i];
                let b = point_vec[j];
                assert(pts[i as int] != pts[j as int]);
                assert(on_map(a.0 as int, a.1 as int, hh, ww) && on_map(b.0 as int, b.1 as int, hh, ww));
                let ghost before = self.antinodes_without_limit@;
                walk_ray(&mut self.antinodes_without_limit, a, b, h, w);
                walk_ray(&mut self.antinodes_without_limit, b, a, h, w);
                assert(self.antinodes_without_limit@ =~= before.union(ray(a, b, hh, ww).union(ray(b, a, hh, ww))));
                assert(self.antinodes_without_limit@ =~= old(self).antinodes_without_limit@.union(
                    group_antinodes(pts, i as int, hh, ww, true)).union(row_antinodes(pts, i as int, j + 1, hh, ww, true)));
                j += 1;
            }
            assert(group_antinodes(pts, i + 1, hh, ww, true) == group_antinodes(pts, i as int, hh, ww, true)
                .union(row_antinodes(pts, i as int, n as int, hh, ww, true)));
            assert(self.antinodes_without_limit@ =~= old(self).antinodes_without_limit@.union(
                group_antinodes(pts, i + 1, hh, ww, true)));
            i += 1;
        }
    }
}

fn copy_points(v: &Vec<(i32, i32)>) -> (r: Vec<(i32, i32)>)
    ensures
        r@ == v@,
{
    let mut r: Vec<(i32, i32)> = Vec::new();
    let mut i: usize = 0;
    while i < v.len()
        invariant
            i <= v.len(),
            r@ == v@.subrange(0, i as int),
        decreases v.len() - i,
    {
        r.push(v[i]);
        i += 1;
        assert(r@ =~= v@.subrange(0, i as int));
    }
    assert(r@ =~= v@);
    r
}

} // verus!
