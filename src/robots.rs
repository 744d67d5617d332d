//! Robots patrolling a room whose edges wrap around: positions after some
//! seconds, and the count of robots on each cell.
use vstd::prelude::*;
use std::collections::HashSet;
use vstd::arithmetic::div_mod::lemma_mod_multiples_vanish;
use crate::memory::{decimal_value, is_ascii_digit, lemma_decimal_value_monotone};
use vstd::string::StringSliceAdditionalSpecFns;

verus! {

/// Fewest robots standing next to another that make a picture.
pub const CLUSTER_MIN: usize = 250;

/// `a` is one of the separator bytes.
pub open spec fn is_sep(seps: Seq<u8>, a: u8) -> bool {
    seps.contains(a)
}

pub open spec fn skip_seps(s: Seq<u8>, seps: Seq<u8>, i: int) -> int
    decreases s.len() - i,
{
    if 0 <= i < s.len() && is_sep(seps, s[i]) {
        skip_seps(s, seps, i + 1)
    } else {
        i
    }
}

pub open spec fn skip_token(s: Seq<u8>, seps: Seq<u8>, i: int) -> int
    decreases s.len() - i,
{
    if 0 <= i < s.len() && !is_sep(seps, s[i]) {
        skip_token(s, seps, i + 1)
    } else {
        i
    }
}

/// Bounds of the `n`-th non-empty token at or after `i`.
pub open spec fn nth_token(s: Seq<u8>, seps: Seq<u8>, i: int, n: nat) -> Option<(int, int)>
    decreases n,
{
    let start = skip_seps(s, seps, i);
    if start < 0 || start >= s.len() {
        None
    } else if n == 0 {
        Some((start, skip_token(s, seps, start)))
    } else {
        nth_token(s, seps, skip_token(s, seps, start), (n - 1) as nat)
    }
}

/// The value of `s[i..j]` read as a signed decimal (an optional `+` or `-`,
/// then at least one digit).
pub open spec fn signed_value(s: Seq<u8>, i: int, j: int) -> Option<int> {
    let neg = i < j && s[i] == 45;
    let from = if i < j && (s[i] == 45 || s[i] == 43) { i + 1 } else { i };
    if from < j && forall|k: int| from <= k < j ==> is_ascii_digit(#[trigger] s[k]) {
        Some(if neg { -decimal_value(s, from, j) } else { decimal_value(s, from, j) })
    } else {
        None
    }
}

/// The token bounds as a 32-bit value, where it fits.
pub open spec fn token_i32(s: Seq<u8>, t: Option<(int, int)>) -> Option<i32> {
    match t {
        Some((i, j)) => match signed_value(s, i, j) {
            Some(v) => if i32::MIN <= v <= i32::MAX { Some(v as i32) } else { None },
            None => None,
        },
        None => None,
    }
}

pub open spec fn robot_seps() -> Seq<u8> {
    seq![112u8, 61u8, 44u8, 118u8, 32u8]
}

pub(crate) proof fn lemma_skip_bounds(s: Seq<u8>, seps: Seq<u8>, i: int)
    requires
        0 <= i <= s.len(),
    ensures
        i <= skip_seps(s, seps, i) <= s.len(),
        i <= skip_token(s, seps, i) <= s.len(),
    decreases s.len() - i,
{
    if i < s.len() {
        lemma_skip_bounds(s, seps, i + 1);
    }
}

proof fn lemma_decimal_nonneg(s: Seq<u8>, i: int, j: int)
    ensures
        i <= j && (forall|k: int| i <= k < j ==> is_ascii_digit(#[trigger] s[k])) ==> decimal_value(s, i, j) >= 0,
    decreases j - i,
{
    if j > i {
        lemma_decimal_nonneg(s, i, j - 1);
    }
}

fn is_sep_byte(seps: &[u8], a: u8) -> (r: bool)
    ensures
        r == is_sep(seps@, a),
{
    let mut k: usize = 0;
    while k < seps.len()
        invariant
            k <= seps.len(),
            forall|m: int| 0 <= m < k ==> seps@[m] != a,
        decreases seps.len() - k,
    {
        if seps[k] == a {
            assert(seps@[k as int] == a);
            return true;
        }
        k += 1;
    }
    false
}

/// Bounds of the next token at or after `i`, or `None` at the end.
pub(crate) fn next_token(s: &[u8], seps: &[u8], i: usize) -> (r: Option<(usize, usize)>)
    requires
        i <= s.len(),
    ensures
        r is None <==> nth_token(s@, seps@, i as int, 0) is None,
        r matches Some(t) ==> t.0 <= t.1 <= s.len() && nth_token(s@, seps@, i as int, 0) == Some((t.0 as int, t.1 as int)),
{
    proof {
        lemma_skip_bounds(s@, seps@, i as int);
    }
    let mut k = i;
    while k < s.len() && is_sep_byte(seps, s[k])
        invariant
            i <= k <= s.len(),
            skip_seps(s@, seps@, k as int) == skip_seps(s@, seps@, i as int),
        decreases s.len() - k,
    {
        k += 1;
    }
    if k >= s.len() {
        return None;
    }
    proof {
        lemma_skip_bounds(s@, seps@, k as int);
    }
    let mut e = k;
    while e < s.len() && !is_sep_byte(seps, s[e])
        invariant
            k <= e <= s.len(),
            skip_token(s@, seps@, e as int) == skip_token(s@, seps@, k as int),
        decreases s.len() - e,
    {
        e += 1;
    }
    Some((k, e))
}

/// The signed 32-bit value of `s[i..j]`.
pub(crate) fn parse_i32(s: &[u8], i: usize, j: usize) -> (r: Option<i32>)
    requires
        i <= j <= s.len(),
    ensures
        r == token_i32(s@, Some((i as int, j as int))),
{
    let neg = i < j && s[i] == 45;
    let from = if i < j && (s[i] == 45 || s[i] == 43) { i + 1 } else { i };
    if from >= j {
        return None;
    }
    let mut value: i64 = 0;
    let mut k = from;
    while k < j
        invariant
            from <= k <= j <= s.len(),
            i <= from,
            from == (if i < j && (s@[i as int] == 45 || s@[i as int] == 43) { i + 1 } else { i as int }),
            forall|m: int| from <= m < k ==> is_ascii_digit(#[trigger] s@[m]),
            value == decimal_value(s@, from as int, k as int),
            0 <= value <= 2147483648,
        decreases j - k,
    {
        if !(48 <= s[k] && s[k] <= 57) {
            assert(!is_ascii_digit(s@[k as int]));
            return None;
        }
        let next = value * 10 + (s[k] - 48) as i64;
        assert(decimal_value(s@, from as int, k + 1) == next);
        if next > 2147483648 {
            proof {
                if forall|m: int| from <= m < j ==> is_ascii_digit(#[trigger] s@[m]) {
                    lemma_decimal_value_monotone(s@, from as int, k + 1, j as int);
                }
            }
            return None;
        }
        value = next;
        k += 1;
    }
    let v = if neg { -value } else { value };
    if v < i32::MIN as i64 || v > i32::MAX as i64 {
        return None;
    }
    Some(v as i32)
}

/// Remainder of `a` by `b` with the sign of `a`, as Rust's `%` gives it.
pub open spec fn trem(a: int, b: int) -> int {
    if a >= 0 {
        a % b
    } else {
        -((-a) % b)
    }
}

/// Coordinate `p` moved by `mv` on an axis of `m` cells that wraps around.
pub open spec fn wrap_move(p: int, mv: int, m: int) -> int {
    if mv >= 0 {
        trem(p + mv, m)
    } else {
        let x = p + trem(mv, m);
        if x >= 0 {
            x
        } else {
            m + x
        }
    }
}

/// The column after one second: the wrap test of a backward step reads the
/// remainder by the height, its value the remainder by the width.
pub open spec fn column_step(p: int, v: int, h: int, w: int) -> int {
    if v >= 0 {
        trem(p + v, w)
    } else if p + trem(v, h) >= 0 {
        p + trem(v, w)
    } else {
        w + (p + trem(v, w))
    }
}

/// On a wrapping axis a move lands where the Euclidean remainder says.
pub proof fn lemma_wrap_move(p: int, mv: int, m: int)
    requires
        0 <= p < m,
    ensures
        wrap_move(p, mv, m) == (p + mv) % m,
        0 <= wrap_move(p, mv, m) < m,
{
    if mv < 0 {
        let q = (-mv) / m;
        let r = (-mv) % m;
        assert(-mv == m * q + r) by {
            vstd::arithmetic::div_mod::lemma_fundamental_div_mod(-mv, m);
        }
        assert(p + mv == m * (-q) + (p - r)) by (nonlinear_arith)
            requires
                -mv == m * q + r,
        ;
        lemma_mod_multiples_vanish(-q, p - r, m);
        if p - r >= 0 {
            assert((p - r) % m == p - r) by {
                vstd::arithmetic::div_mod::lemma_small_mod((p - r) as nat, m as nat);
            }
        } else {
            lemma_mod_multiples_vanish(1, p - r, m);
            assert((m + (p - r)) % m == m + (p - r)) by {
                vstd::arithmetic::div_mod::lemma_small_mod((m + (p - r)) as nat, m as nat);
            }
        }
    }
}

/// A robot: its position and its velocity, each as `(row, column)`.
#[derive(Clone, Copy, Debug)]
pub struct Robot {
    pub position: (i32, i32),
    pub velocity: (i32, i32),
}

/// The robot that a line such as `p=0,4 v=3,-3` describes.
pub open spec fn line_robot(s: Seq<u8>) -> Option<Robot> {
    let seps = robot_seps();
    match (
        token_i32(s, nth_token(s, seps, 0, 0)),
        token_i32(s, nth_token(s, seps, 0, 1)),
        token_i32(s, nth_token(s, seps, 0, 2)),
        token_i32(s, nth_token(s, seps, 0, 3)),
    ) {
        (Some(pc), Some(pr), Some(vc), Some(vr)) => Some(Robot { position: (pr, pc), velocity: (vr, vc) }),
        _ => None,
    }
}

fn rem_i128(a: i128, b: i128) -> (r: i128)
    requires
        b > 0,
        a > i128::MIN,
    ensures
        r == trem(a as int, b as int),
{
    if a >= 0 {
        ((a as u128) % (b as u128)) as i128
    } else {
        -((((-a) as u128) % (b as u128)) as i128)
    }
}

fn rem_i64(a: i64, b: i64) -> (r: i64)
    requires
        b > 0,
        a > i64::MIN,
    ensures
        r == trem(a as int, b as int),
{
    if a >= 0 {
        ((a as u64) % (b as u64)) as i64
    } else {
        -((((-a) as u64) % (b as u64)) as i64)
    }
}

impl Robot {
    /// Reads a line such as `p=0,4 v=3,-3`: position column and row, then
    /// velocity column and row.
    pub fn parse_line(data: &str) -> (r: Option<Robot>)
        ensures
            r == line_robot(data.spec_bytes()),
    {
        let s = data.as_bytes();
        let seps: [u8; 5] = [112u8, 61u8, 44u8, 118u8, 32u8];
        assert(seps@ =~= robot_seps());
        let seps = seps.as_slice();
        let (i0, j0) = match next_token(s, seps, 0) {
            Some(t) => t,
            None => return None,
        };
        let (i1, j1) = match next_token(s, seps, j0) {
            Some(t) => t,
            None => return None,
        };
        assert(nth_token(s@, seps@, 0, 1) == nth_token(s@, seps@, j0 as int, 0));
        let (i2, j2) = match next_token(s, seps, j1) {
            Some(t) => t,
            None => return None,
        };
        assert(nth_token(s@, seps@, 0, 2) == nth_token(s@, seps@, j0 as int, 1));
        assert(nth_token(s@, seps@, j0 as int, 1) == nth_token(s@, seps@, j1 as int, 0));
        let (i3, j3) = match next_token(s, seps, j2) {
            Some(t) => t,
            None => return None,
        };
        assert(nth_token(s@, seps@, 0, 3) == nth_token(s@, seps@, j0 as int, 2));
        assert(nth_token(s@, seps@, j0 as int, 2) == nth_token(s@, seps@, j1 as int, 1));
        assert(nth_token(s@, seps@, j1 as int, 1) == nth_token(s@, seps@, j2 as int, 0));
        let pc = match parse_i32(s, i0, j0) {
            Some(v) => v,
            None => return None,
        };
        let pr = match parse_i32(s, i1, j1) {
            Some(v) => v,
            None => return None,
        };
        let vc = match parse_i32(s, i2, j2) {
            Some(v) => v,
            None => return None,
        };
        let vr = match parse_i32(s, i3, j3) {
            Some(v) => v,
            None => return None,
        };
        Some(Robot { position: (pr, pc), velocity: (vr, vc) })
    }

    /// Where the robot stands after `duration` seconds in a room of
    /// `height` by `width` cells whose edges wrap around.
    pub fn action(&self, height: i32, width: i32, duration: u32) -> (r: (i32, i32))
        requires
            0 < height,
            0 < width,
            0 <= self.position.0 < height,
            0 <= self.position.1 < width,
        ensures
            r.0 == wrap_move(self.position.0 as int, self.velocity.0 * duration, height as int),
            r.1 == wrap_move(self.position.1 as int, self.velocity.1 * duration, width as int),
            r.0 == (self.position.0 + self.velocity.0 * duration) % (height as int),
            r.1 == (self.position.1 + self.velocity.1 * duration) % (width as int),
    {
        proof {
            lemma_wrap_move(self.position.0 as int, self.velocity.0 * duration, height as int);
            lemma_wrap_move(self.position.1 as int, self.velocity.1 * duration, width as int);
            assert(-0x1_0000_0000_0000_0000 <= self.velocity.0 * duration <= 0x1_0000_0000_0000_0000) by (nonlinear_arith)
                requires
                    -2147483648 <= self.velocity.0 <= 2147483647,
                    0 <= duration <= 4294967295,
            ;
            assert(-0x1_0000_0000_0000_0000 <= self.velocity.1 * duration <= 0x1_0000_0000_0000_0000) by (nonlinear_arith)
                requires
                    -2147483648 <= self.velocity.1 <= 2147483647,
                    0 <= duration <= 4294967295,
            ;
        }
        let t = duration as i128;
        let row = Robot::wrap_axis(self.position.0 as i128, self.velocity.0 as i128 * t, height as i128);
        let col = Robot::wrap_axis(self.position.1 as i128, self.velocity.1 as i128 * t, width as i128);
        (row as i32, col as i32)
    }

    fn wrap_axis(p: i128, mv: i128, m: i128) -> (r: i128)
        requires
            0 < m <= i32::MAX,
            0 <= p < m,
            -0x1_0000_0000_0000_0000 <= mv <= 0x1_0000_0000_0000_0000,
        ensures
            r == wrap_move(p as int, mv as int, m as int),
    {
        if mv >= 0 {
            rem_i128(p + mv, m)
        } else {
            let x = p + rem_i128(mv, m);
            if x >= 0 {
                x
            } else {
                m + x
            }
        }
    }

    /// Moves the robot by one second of its velocity in a room of `height`
    /// by `width` cells whose edges wrap around.
    pub fn action_per_scecond(&mut self, height: i32, width: i32)
        requires
            0 < height,
            0 < width,
            0 <= old(self).position.0 < height,
            0 <= old(self).position.1 < width,
            i32::MIN <= column_step(
                old(self).position.1 as int,
                old(self).velocity.1 as int,
                height as int,
                width as int,
            ) <= i32::MAX,
        ensures
            final(self).position.0 == wrap_move(old(self).position.0 as int, old(self).velocity.0 as int, height as int),
            final(self).position.0 == (old(self).position.0 + old(self).velocity.0) % (height as int),
            final(self).position.1 == column_step(
                old(self).position.1 as int,
                old(self).velocity.1 as int,
                height as int,
                width as int,
            ),
            final(self).velocity == old(self).velocity,
    {
        proof {
            lemma_wrap_move(self.position.0 as int, self.velocity.0 as int, height as int);
        }
        let row = Robot::wrap_axis(self.position.0 as i128, self.velocity.0 as i128, height as i128);
        let p = self.position.1 as i64;
        let v = self.velocity.1 as i64;
        let col = if v >= 0 {
            rem_i64(p + v, width as i64)
        } else if p + rem_i64(v, height as i64) >= 0 {
            p + rem_i64(v, width as i64)
        } else {
            width as i64 + (p + rem_i64(v, width as i64))
        };
        self.position = (row as i32, col as i32);
    }
}

/// The robots after `t` seconds.
pub open spec fn moved_robots(robots: Seq<Robot>, h: int, w: int, t: int) -> Seq<Robot> {
    Seq::new(robots.len(), |k: int| Robot {
        position: (destination(robots[k], h, w, t).0 as i32, destination(robots[k], h, w, t).1 as i32),
        velocity: robots[k].velocity,
    })
}

proof fn lemma_moved_in_room(robots: Seq<Robot>, h: int, w: int, t: int)
    requires
        0 < h <= i32::MAX,
        0 < w <= i32::MAX,
    ensures
        forall|k: int| 0 <= k < robots.len() ==> {
            &&& 0 <= (#[trigger] moved_robots(robots, h, w, t)[k]).position.0 < h
            &&& 0 <= moved_robots(robots, h, w, t)[k].position.1 < w
        },
{
    assert forall|k: int| 0 <= k < robots.len() implies {
        &&& 0 <= (#[trigger] moved_robots(robots, h, w, t)[k]).position.0 < h
        &&& 0 <= moved_robots(robots, h, w, t)[k].position.1 < w
    } by {
        let d = destination(robots[k], h, w, t);
        vstd::arithmetic::div_mod::lemma_mod_bound(robots[k].position.0 + robots[k].velocity.0 * t, h);
        vstd::arithmetic::div_mod::lemma_mod_bound(robots[k].position.1 + robots[k].velocity.1 * t, w);
    }
}

/// Where a robot stands after `t` seconds.
pub open spec fn destination(rb: Robot, h: int, w: int, t: int) -> (int, int) {
    ((rb.position.0 + rb.velocity.0 * t) % h, (rb.position.1 + rb.velocity.1 * t) % w)
}

/// Number of the first `n` robots that stand on `(r, c)` after `t` seconds.
pub open spec fn landing(robots: Seq<Robot>, n: int, r: int, c: int, h: int, w: int, t: int) -> int
    decreases n,
{
    if n <= 0 {
        0
    } else {
        landing(robots, n - 1, r, c, h, w, t) + if destination(robots[n - 1], h, w, t) == (r, c) { 1int } else { 0int }
    }
}

proof fn lemma_landing_bounds(robots: Seq<Robot>, n: int, r: int, c: int, h: int, w: int, t: int)
    requires
        0 <= n,
    ensures
        0 <= landing(robots, n, r, c, h, w, t) <= n,
    decreases n,
{
    if n > 0 {
        lemma_landing_bounds(robots, n - 1, r, c, h, w, t);
    }
}

/// One of the first `n` robots stands on `(r, c)`.
pub open spec fn occupied(robots: Seq<Robot>, n: int, r: int, c: int) -> bool {
    exists|k: int| 0 <= k < n && (#[trigger] robots[k]).position == (r as i32, c as i32)
}

/// The robots, and a count of robots per cell of a room of `height` rows
/// and `width` columns.
pub struct Puzzle {
    pub robots: Vec<Robot>,
    pub map: Vec<Vec<i32>>,
    pub height: i32,
    pub width: i32,
}

impl Puzzle {
    /// A room of `height` by `width` cells with no robot counted yet; `None`
    /// where the size is out of range or a robot stands outside the room.
    pub fn from_robots(robots: Vec<Robot>, height: i32, width: i32) -> (r: Option<Puzzle>)
        ensures
            r is Some <==> 0 < height && 0 < width && forall|k: int| 0 <= k < robots@.len() ==> {
                &&& 0 <= (#[trigger] robots@[k]).position.0 < height
                &&& 0 <= robots@[k].position.1 < width
            },
            r matches Some(p) ==> {
                &&& p.wf()
                &&& p.robots@ == robots@
                &&& p.height == height && p.width == width
                &&& forall|r: int, c: int| 0 <= r < height && 0 <= c < width ==> #[trigger] p.map@[r]@[c] == 0
            },
    {
        if height <= 0 || width <= 0 {
            return None;
        }
        let mut k: usize = 0;
        while k < robots.len()
            invariant
                k <= robots.len(),
                forall|m: int| 0 <= m < k ==> {
                    &&& 0 <= (#[trigger] robots@[m]).position.0 < height
                    &&& 0 <= robots@[m].position.1 < width
                },
            decreases robots.len() - k,
        {
            let (r, c) = robots[k].position;
            if r < 0 || r >= height || c < 0 || c >= width {
                return None;
            }
            k += 1;
        }
        let mut map: Vec<Vec<i32>> = Vec::new();
        let mut i: i32 = 0;
        while i < height
            invariant
                0 <= i <= height,
                0 < width,
                map@.len() == i,
                forall|r: int| 0 <= r < i ==> (#[trigger] map@[r])@.len() == width,
                forall|r: int, c: int| 0 <= r < i && 0 <= c < width ==> #[trigger] map@[r]@[c] == 0,
            decreases height - i,
        {
            let mut row: Vec<i32> = Vec::new();
            let mut j: i32 = 0;
            while j < width
                invariant
                    0 <= j <= width,
                    row@.len() == j,
                    forall|c: int| 0 <= c < j ==> #[trigger] row@[c] == 0,
                decreases width - j,
            {
                row.push(0);
                j += 1;
            }
            map.push(row);
            i += 1;
        }
        Some(Puzzle { robots, map, height, width })
    }

    /// The map has the room's size and every robot stands in the room.
    pub open spec fn wf(&self) -> bool {
        &&& 0 < self.height
        &&& 0 < self.width
        &&& self.map@.len() == self.height
        &&& forall|r: int| 0 <= r < self.height ==> (#[trigger] self.map@[r])@.len() == self.width
        &&& forall|k: int| 0 <= k < self.robots@.len() ==> {
            &&& 0 <= (#[trigger] self.robots@[k]).position.0 < self.height
            &&& 0 <= self.robots@[k].position.1 < self.width
        }
    }

    /// Adds to each cell the robots that stand there after `duration`
    /// seconds.
    pub fn robot_move(&mut self, duration: u32)
        requires
            old(self).wf(),
            forall|r: int, c: int| 0 <= r < old(self).height && 0 <= c < old(self).width
                ==> 0 <= #[trigger] old(self).map@[r]@[c] <= i32::MAX - old(self).robots@.len(),
        ensures
            final(self).wf(),
            final(self).robots@ == old(self).robots@,
            final(self).height == old(self).height && final(self).width == old(self).width,
            forall|r: int, c: int| 0 <= r < old(self).height && 0 <= c < old(self).width
                ==> #[trigger] final(self).map@[r]@[c] == old(self).map@[r]@[c] + landing(
                    old(self).robots@, old(self).robots@.len() as int, r, c,
                    old(self).height as int, old(self).width as int, duration as int),
    {
        let n = self.robots.len();
        let mut k: usize = 0;
        while k < n
            invariant
                n == self.robots@.len(),
                self.wf(),
                self.robots@ == old(self).robots@,
                self.height == old(self).height && self.width == old(self).width,
                k <= n,
                forall|r: int, c: int| 0 <= r < old(self).height && 0 <= c < old(self).width
                    ==> 0 <= #[trigger] old(self).map@[r]@[c] <= i32::MAX - n,
                forall|r: int, c: int| 0 <= r < self.height && 0 <= c < self.width
                    ==> #[trigger] self.map@[r]@[c] == old(self).map@[r]@[c] + landing(
                        self.robots@, k as int, r, c, self.height as int, self.width as int, duration as int),
            decreases n - k,
        {
            let rb = self.robots[k];
            assert(0 <= rb.position.0 < self.height && 0 <= rb.position.1 < self.width);
            let (row, col) = rb.action(self.height, self.width, duration);
            proof {
                lemma_wrap_move(rb.position.0 as int, rb.velocity.0 * duration, self.height as int);
                lemma_wrap_move(rb.position.1 as int, rb.velocity.1 * duration, self.width as int);
                lemma_landing_bounds(self.robots@, k as int, row as int, col as int, self.height as int, self.width as int, duration as int);
            }
            let ghost before = self.map@;
            let cur = self.map[row as usize][col as usize];
            self.map[row as usize][col as usize] = cur + 1;
            assert forall|r: int, c: int| 0 <= r < self.height && 0 <= c < self.width
                implies #[trigger] self.map@[r]@[c] == old(self).map@[r]@[c] + landing(
                    self.robots@, k + 1, r, c, self.height as int, self.width as int, duration as int) by {
                assert(self.robots@[k as int] == rb);
                if r == row && c == col {
                } else {
                    assert(self.map@[r]@[c] == before[r]@[c]);
                }
            }
            k += 1;
        }
    }

    /// Clears the map and marks with 1 each cell where a robot stands.
    pub fn init_map(&mut self)
        requires
            old(self).wf(),
        ensures
            final(self).wf(),
            final(self).robots@ == old(self).robots@,
            final(self).height == old(self).height && final(self).width == old(self).width,
            forall|r: int, c: int| 0 <= r < old(self).height && 0 <= c < old(self).width
                ==> #[trigger] final(self).map@[r]@[c] == if occupied(old(self).robots@, old(self).robots@.len() as int, r, c) { 1int } else { 0int },
    {
        let h = self.height as usize;
        let w = self.width as usize;
        let mut i: usize = 0;
        while i < h
            invariant
                self.wf(),
                self.robots@ == old(self).robots@,
                self.height == old(self).height && self.width == old(self).width,
                h == self.height && w == self.width,
                i <= h,
                forall|r: int, c: int| 0 <= r < i && 0 <= c < w ==> #[trigger] self.map@[r]@[c] == 0,
            decreases h - i,
        {
            let mut j: usize = 0;
            while j < w
                invariant
                    self.wf(),
                    self.robots@ == old(self).robots@,
                    self.height == old(self).height && self.width == old(self).width,
                    h == self.height && w == self.width,
                    i < h,
                    j <= w,
                    forall|r: int, c: int| 0 <= r < i && 0 <= c < w ==> #[trigger] self.map@[r]@[c] == 0,
                    forall|c: int| 0 <= c < j ==> #[trigger] self.map@[i as int]@[c] == 0,
                decreases w - j,
            {
                self.map[i][j] = 0;
                j += 1;
            }
            i += 1;
        }
        let n = self.robots.len();
        let mut k: usize = 0;
        while k < n
            invariant
                self.wf(),
                self.robots@ == old(self).robots@,
                self.height == old(self).height && self.width == old(self).width,
                n == self.robots@.len(),
                k <= n,
                forall|r: int, c: int| 0 <= r < self.height && 0 <= c < self.width
                    ==> #[trigger] self.map@[r]@[c] == if occupied(self.robots@, k as int, r, c) { 1int } else { 0int },
            decreases n - k,
        {
            let (row, col) = self.robots[k].position;
            let ghost before = self.map@;
            self.map[row as usize][col as usize] = 1;
            assert forall|r: int, c: int| 0 <= r < self.height && 0 <= c < self.width
                implies #[trigger] self.map@[r]@[c] == if occupied(self.robots@, k + 1, r, c) { 1int } else { 0int } by {
                if r == row && c == col {
                    assert(self.robots@[k as int].position == (r as i32, c as i32));
                } else {
                    assert(self.map@[r]@[c] == before[r]@[c]);
                    if occupied(self.robots@, k + 1, r, c) {
                        let m = choose|m: int| 0 <= m < k + 1 && (#[trigger] self.robots@[m]).position == (r as i32, c as i32);
                        assert(m != k);
                    }
                }
            }
            k += 1;
        }
    }

    /// Product of the robot counts of the four quadrants (the middle row and
    /// column belong to none); `None` where a count or a partial product
    /// does not fit in 32 bits.
    pub fn cal_safety_factor(&self) -> (r: Option<i32>)
        requires
            self.wf(),
            forall|r: int, c: int| 0 <= r < self.height && 0 <= c < self.width ==> 0 <= #[trigger] self.map@[r]@[c],
        ensures
            ({
                let (g, h, w) = (self.map@, self.height as int, self.width as int);
                let (q1, q2, q3, q4) = (quadrant_sum(g, h, w, 1, h), quadrant_sum(g, h, w, 2, h),
                    quadrant_sum(g, h, w, 3, h), quadrant_sum(g, h, w, 4, h));
                &&& r is Some <==> (q1 <= i32::MAX && q2 <= i32::MAX && q3 <= i32::MAX && q4 <= i32::MAX
                    && q1 * q2 <= i32::MAX && q1 * q2 * q3 <= i32::MAX && q1 * q2 * q3 * q4 <= i32::MAX)
                &&& r matches Some(v) ==> v == q1 * q2 * q3 * q4
            }),
    {
        let h = self.height;
        let w = self.width;
        let ghost g = self.map@;
        let mut s1: i32 = 0;
        let mut s2: i32 = 0;
        let mut s3: i32 = 0;
        let mut s4: i32 = 0;
        let mut row: i32 = 0;
        while row < h
            invariant
                self.wf(),
                g == self.map@,
                h == self.height && w == self.width,
                forall|r: int, c: int| 0 <= r < h && 0 <= c < w ==> 0 <= #[trigger] g[r]@[c],
                0 <= row <= h,
                s1 == quadrant_sum(g, h as int, w as int, 1, row as int),
                s2 == quadrant_sum(g, h as int, w as int, 2, row as int),
                s3 == quadrant_sum(g, h as int, w as int, 3, row as int),
                s4 == quadrant_sum(g, h as int, w as int, 4, row as int),
            decreases h - row,
        {
            proof {
                lemma_quadrant_sum_monotone(g, h as int, w as int, 1, row + 1, h as int);
                lemma_quadrant_sum_monotone(g, h as int, w as int, 2, row + 1, h as int);
                lemma_quadrant_sum_monotone(g, h as int, w as int, 3, row + 1, h as int);
                lemma_quadrant_sum_monotone(g, h as int, w as int, 4, row + 1, h as int);
            }
            let mut col: i32 = 0;
            while col < w
                invariant
                    self.wf(),
                    g == self.map@,
                    h == self.height && w == self.width,
                    forall|r: int, c: int| 0 <= r < h && 0 <= c < w ==> 0 <= #[trigger] g[r]@[c],
                    0 <= row < h,
                    0 <= col <= w,
                    quadrant_sum(g, h as int, w as int, 1, row + 1) <= quadrant_sum(g, h as int, w as int, 1, h as int),
                    quadrant_sum(g, h as int, w as int, 2, row + 1) <= quadrant_sum(g, h as int, w as int, 2, h as int),
                    quadrant_sum(g, h as int, w as int, 3, row + 1) <= quadrant_sum(g, h as int, w as int, 3, h as int),
                    quadrant_sum(g, h as int, w as int, 4, row + 1) <= quadrant_sum(g, h as int, w as int, 4, h as int),
                    s1 == quadrant_sum(g, h as int, w as int, 1, row as int) + quadrant_row(g, h as int, w as int, 1, row as int, col as int),
                    s2 == quadrant_sum(g, h as int, w as int, 2, row as int) + quadrant_row(g, h as int, w as int, 2, row as int, col as int),
                    s3 == quadrant_sum(g, h as int, w as int, 3, row as int) + quadrant_row(g, h as int, w as int, 3, row as int, col as int),
                    s4 == quadrant_sum(g, h as int, w as int, 4, row as int) + quadrant_row(g, h as int, w as int, 4, row as int, col as int),
                decreases w - col,
            {
                proof {
                    lemma_quadrant_row_monotone(g, h as int, w as int, 1, row as int, col + 1, w as int);
                    lemma_quadrant_row_monotone(g, h as int, w as int, 2, row as int, col + 1, w as int);
                    lemma_quadrant_row_monotone(g, h as int, w as int, 3, row as int, col + 1, w as int);
                    lemma_quadrant_row_monotone(g, h as int, w as int, 4, row as int, col + 1, w as int);
                    lemma_quadrant_sum_monotone(g, h as int, w as int, 1, 0, row as int);
                    lemma_quadrant_sum_monotone(g, h as int, w as int, 2, 0, row as int);
                    lemma_quadrant_sum_monotone(g, h as int, w as int, 3, 0, row as int);
                    lemma_quadrant_sum_monotone(g, h as int, w as int, 4, 0, row as int);
                }
                let q = quadrant_of(row, col, h, w);
                let v = self.map[row as usize][col as usize];
                if q == 1 {
                    s1 = match s1.checked_add(v) {
                        Some(x) => x,
                        None => return None,
                    };
                } else if q == 2 {
                    s2 = match s2.checked_add(v) {
                        Some(x) => x,
                        None => return None,
                    };
                } else if q == 3 {
                    s3 = match s3.checked_add(v) {
                        Some(x) => x,
                        None => return None,
                    };
                } else if q == 4 {
                    s4 = match s4.checked_add(v) {
                        Some(x) => x,
                        None => return None,
                    };
                }
                col += 1;
            }
            row += 1;
        }
        proof {
            lemma_quadrant_sum_monotone(g, h as int, w as int, 1, 0, h as int);
            lemma_quadrant_sum_monotone(g, h as int, w as int, 2, 0, h as int);
            lemma_quadrant_sum_monotone(g, h as int, w as int, 3, 0, h as int);
            lemma_quadrant_sum_monotone(g, h as int, w as int, 4, 0, h as int);
            let (a, b, c, d) = (s1 as int, s2 as int, s3 as int, s4 as int);
            assert(a * b >= 0 && a * b * c >= 0 && a * b * c * d >= 0) by (nonlinear_arith)
                requires
                    a >= 0,
                    b >= 0,
                    c >= 0,
                    d >= 0,
            ;
        }
        let p12 = match s1.checked_mul(s2) {
            Some(x) => x,
            None => return None,
        };
        let p123 = match p12.checked_mul(s3) {
            Some(x) => x,
            None => return None,
        };
        p123.checked_mul(s4)
    }
}

/// The key of cell `(r, c)` in a room `w` cells wide.
pub open spec fn key_of(r: int, c: int, w: int) -> u64 {
    (r * w + c) as u64
}

pub open spec fn key_if(b: bool, r: int, c: int, w: int) -> Set<u64> {
    if b {
        set![key_of(r, c, w)]
    } else {
        Set::empty()
    }
}

/// Keys of the cells around `(r, c)` that lie in the room, the eight
/// directions included.
pub open spec fn around(r: int, c: int, h: int, w: int) -> Set<u64> {
    key_if(r > 0, r - 1, c, w).union(key_if(c < w - 1, r, c + 1, w)).union(key_if(r < h - 1, r + 1, c, w)).union(
        key_if(c > 0, r, c - 1, w),
    ).union(key_if(r > 0 && c > 0, r - 1, c - 1, w)).union(key_if(r > 0 && c < w - 1, r - 1, c + 1, w)).union(
        key_if(r < h - 1 && c > 0, r + 1, c - 1, w),
    ).union(key_if(r < h - 1 && c < w - 1, r + 1, c + 1, w))
}

/// Keys of the cells next to one of the first `n` robots.
pub open spec fn neighbourhood(robots: Seq<Robot>, n: int, h: int, w: int) -> Set<u64>
    decreases n,
{
    if n <= 0 {
        Set::empty()
    } else {
        neighbourhood(robots, n - 1, h, w).union(
            around(robots[n - 1].position.0 as int, robots[n - 1].position.1 as int, h, w),
        )
    }
}

/// Keys of the cells where one of the first `n` robots stands next to a
/// robot before it.
pub open spec fn grouped(robots: Seq<Robot>, n: int, h: int, w: int) -> Set<u64>
    decreases n,
{
    if n <= 0 {
        Set::empty()
    } else {
        let k = key_of(robots[n - 1].position.0 as int, robots[n - 1].position.1 as int, w);
        if neighbourhood(robots, n - 1, h, w).contains(k) {
            grouped(robots, n - 1, h, w).insert(k)
        } else {
            grouped(robots, n - 1, h, w)
        }
    }
}

fn cell_key(r: i32, c: i32, w: i32) -> (k: u64)
    requires
        0 <= r,
        0 <= c,
        0 < w,
    ensures
        k == key_of(r as int, c as int, w as int),
{
    assert(0 <= r as int * w as int <= i32::MAX * i32::MAX) by (nonlinear_arith)
        requires
            0 <= r <= i32::MAX,
            0 < w <= i32::MAX,
    ;
    (r as u64) * (w as u64) + (c as u64)
}

fn add_if(set: &mut HashSet<u64>, b: bool, r: i32, c: i32, w: i32)
    requires
        b ==> 0 <= r && 0 <= c,
        0 < w,
    ensures
        final(set)@ == old(set)@.union(key_if(b, r as int, c as int, w as int)),
{
    broadcast use vstd::std_specs::hash::group_hash_axioms;
    if b {
        let k = cell_key(r, c, w);
        set.insert(k);
        assert(set@ =~= old(set)@.union(key_if(b, r as int, c as int, w as int)));
    } else {
        assert(set@ =~= old(set)@.union(key_if(b, r as int, c as int, w as int)));
    }
}

fn add_around(set: &mut HashSet<u64>, r: i32, c: i32, h: i32, w: i32)
    requires
        0 <= r < h,
        0 <= c < w,
    ensures
        final(set)@ == old(set)@.union(around(r as int, c as int, h as int, w as int)),
{
    let ghost s0 = set@;
    add_if(set, r > 0, r - 1, c, w);
    add_if(set, c < w - 1, r, c + 1, w);
    add_if(set, r < h - 1, r + 1, c, w);
    add_if(set, c > 0, r, c - 1, w);
    add_if(set, r > 0 && c > 0, r - 1, c - 1, w);
    add_if(set, r > 0 && c < w - 1, r - 1, c + 1, w);
    add_if(set, r < h - 1 && c > 0, r + 1, c - 1, w);
    add_if(set, r < h - 1 && c < w - 1, r + 1, c + 1, w);
    assert(set@ =~= s0.union(around(r as int, c as int, h as int, w as int)));
}

impl Puzzle {
    /// The first second, from 1 to `last`, after which the robots stand
    /// together (at least `CLUSTER_MIN` next to an earlier one); `None` where
    /// there is none.
    pub fn first_cluster_round(&self, last: u32) -> (r: Option<u32>)
        requires
            self.wf(),
        ensures
            r matches Some(t) ==> 1 <= t <= last && self.clustered(t as int)
                && forall|u: int| 1 <= u < t ==> !#[trigger] self.clustered(u),
            r is None ==> forall|u: int| 1 <= u <= last ==> !#[trigger] self.clustered(u),
    {
        let mut t: u32 = 1;
        while t <= last
            invariant
                self.wf(),
                1 <= t,
                t <= last + 1,
                forall|u: int| 1 <= u < t ==> !#[trigger] self.clustered(u),
            decreases last + 1 - t,
        {
            let moved = self.robots_after(t);
            proof {
                assert(moved@ =~= moved_robots(self.robots@, self.height as int, self.width as int, t as int));
                lemma_moved_in_room(self.robots@, self.height as int, self.width as int, t as int);
            }
            let p = match Puzzle::from_robots(moved, self.height, self.width) {
                Some(p) => p,
                None => {
                    return None;
                },
            };
            if p.is_majority_robots_next_to_each_other() {
                return Some(t);
            }
            if t == last {
                return None;
            }
            t += 1;
        }
        None
    }

    /// The robots stand together after `t` seconds.
    pub open spec fn clustered(&self, t: int) -> bool {
        grouped(moved_robots(self.robots@, self.height as int, self.width as int, t), self.robots@.len() as int,
            self.height as int, self.width as int).len() >= CLUSTER_MIN
    }

    /// The robots as they stand after `duration` seconds.
    pub fn robots_after(&self, duration: u32) -> (r: Vec<Robot>)
        requires
            self.wf(),
        ensures
            r@.len() == self.robots@.len(),
            forall|k: int| 0 <= k < r@.len() ==> {
                &&& (#[trigger] r@[k]).velocity == self.robots@[k].velocity
                &&& (r@[k].position.0 as int, r@[k].position.1 as int)
                    == destination(self.robots@[k], self.height as int, self.width as int, duration as int)
            },
    {
        let mut out: Vec<Robot> = Vec::new();
        let mut k: usize = 0;
        while k < self.robots.len()
            invariant
                self.wf(),
                k <= self.robots.len(),
                out@.len() == k,
                forall|m: int| 0 <= m < k ==> {
                    &&& (#[trigger] out@[m]).velocity == self.robots@[m].velocity
                    &&& (out@[m].position.0 as int, out@[m].position.1 as int)
                        == destination(self.robots@[m], self.height as int, self.width as int, duration as int)
                },
            decreases self.robots.len() - k,
        {
            let rb = self.robots[k];
            assert(0 <= rb.position.0 < self.height && 0 <= rb.position.1 < self.width);
            let position = rb.action(self.height, self.width, duration);
            out.push(Robot { position, velocity: rb.velocity });
            k += 1;
        }
        out
    }

    /// Whether at least `CLUSTER_MIN` distinct cells hold a robot that
    /// stands next to a robot listed before it.
    pub fn is_majority_robots_next_to_each_other(&self) -> (b: bool)
        requires
            self.wf(),
        ensures
            b == (grouped(self.robots@, self.robots@.len() as int, self.height as int, self.width as int).len() >= CLUSTER_MIN),
    {
        broadcast use vstd::std_specs::hash::group_hash_axioms;
        let mut grouped_robots: HashSet<u64> = HashSet::new();
        let mut neighbours: HashSet<u64> = HashSet::new();
        let mut idx: usize = 0;
        while idx < self.robots.len()
            invariant
                self.wf(),
                idx <= self.robots.len(),
                neighbours@ == neighbourhood(self.robots@, idx as int, self.height as int, self.width as int),
                grouped_robots@ == grouped(self.robots@, idx as int, self.height as int, self.width as int),
            decreases self.robots.len() - idx,
        {
            let (p_row, p_col) = self.robots[idx].position;
            assert(0 <= p_row < self.height && 0 <= p_col < self.width);
            let key = cell_key(p_row, p_col, self.width);
            if neighbours.contains(&key) {
                grouped_robots.insert(key);
            }
            add_around(&mut neighbours, p_row, p_col, self.height, self.width);
            idx += 1;
        }
        grouped_robots.len() >= CLUSTER_MIN
    }
}

/// Quadrant of cell `(r, c)` in a room of `h` by `w`: 1 to 4 for top left,
/// top right, bottom left, bottom right; 0 on the middle row or column.
pub open spec fn quadrant(r: int, c: int, h: int, w: int) -> int {
    if r < h / 2 && c < w / 2 {
        1
    } else if r < h / 2 && c > w / 2 {
        2
    } else if r > h / 2 && c < w / 2 {
        3
    } else if r > h / 2 && c > w / 2 {
        4
    } else {
        0
    }
}

/// Robots in quadrant `q` among the first `n` cells of row `r`.
pub open spec fn quadrant_row(g: Seq<Vec<i32>>, h: int, w: int, q: int, r: int, n: int) -> int
    decreases n,
{
    if n <= 0 {
        0
    } else {
        quadrant_row(g, h, w, q, r, n - 1) + if quadrant(r, n - 1, h, w) == q { g[r]@[n - 1] as int } else { 0 }
    }
}

/// Robots in quadrant `q` among the first `m` rows.
pub open spec fn quadrant_sum(g: Seq<Vec<i32>>, h: int, w: int, q: int, m: int) -> int
    decreases m,
{
    if m <= 0 {
        0
    } else {
        quadrant_sum(g, h, w, q, m - 1) + quadrant_row(g, h, w, q, m - 1, w)
    }
}

proof fn lemma_quadrant_row_monotone(g: Seq<Vec<i32>>, h: int, w: int, q: int, r: int, i: int, j: int)
    requires
        0 <= r < h,
        0 <= i <= j <= w,
        g.len() == h,
        forall|rr: int| 0 <= rr < h ==> (#[trigger] g[rr])@.len() == w,
        forall|rr: int, c: int| 0 <= rr < h && 0 <= c < w ==> 0 <= #[trigger] g[rr]@[c],
    ensures
        0 <= quadrant_row(g, h, w, q, r, i) <= quadrant_row(g, h, w, q, r, j),
    decreases j,
{
    if j > i {
        lemma_quadrant_row_monotone(g, h, w, q, r, i, j - 1);
        assert(0 <= g[r]@[j - 1]);
    } else if i > 0 {
        lemma_quadrant_row_monotone(g, h, w, q, r, i - 1, i - 1);
        assert(0 <= g[r]@[i - 1]);
    }
}

proof fn lemma_quadrant_sum_monotone(g: Seq<Vec<i32>>, h: int, w: int, q: int, i: int, j: int)
    requires
        0 <= i <= j <= h,
        0 <= w,
        g.len() == h,
        forall|rr: int| 0 <= rr < h ==> (#[trigger] g[rr])@.len() == w,
        forall|rr: int, c: int| 0 <= rr < h && 0 <= c < w ==> 0 <= #[trigger] g[rr]@[c],
    ensures
        0 <= quadrant_sum(g, h, w, q, i) <= quadrant_sum(g, h, w, q, j),
    decreases j,
{
    if j > i {
        lemma_quadrant_sum_monotone(g, h, w, q, i, j - 1);
        lemma_quadrant_row_monotone(g, h, w, q, j - 1, 0, w);
    } else if i > 0 {
        lemma_quadrant_sum_monotone(g, h, w, q, i - 1, i - 1);
        lemma_quadrant_row_monotone(g, h, w, q, i - 1, 0, w);
    }
}

fn quadrant_of(row: i32, col: i32, h: i32, w: i32) -> (q: i32)
    requires
        0 < h,
        0 < w,
    ensures
        q == quadrant(row as int, col as int, h as int, w as int),
        0 <= q <= 4,
{
    if row < h / 2 && col < w / 2 {
        1
    } else if row < h / 2 && col > w / 2 {
        2
    } else if row > h / 2 && col < w / 2 {
        3
    } else if row > h / 2 && col > w / 2 {
        4
    } else {
        0
    }
}

} // verus!
