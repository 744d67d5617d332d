//! Claw machines: two buttons move the claw by fixed steps, and the prize
//! is won by pressing them so that both coordinates are met exactly.
use vstd::prelude::*;
use vstd::arithmetic::div_mod::{lemma_div_multiples_vanish, lemma_mod_multiples_basic};
use crate::memory::{decimal_value, is_ascii_digit};
use vstd::string::StringSliceAdditionalSpecFns;
use vstd::utf8::encode_utf8;

verus! {

/// Offset added to each prize coordinate once the unit error is corrected.
pub const PRIZE_OFFSET: u64 = 10000000000000;

/// Largest cross product of coordinates that the equation solver takes.
pub const PRODUCT_MAX: u64 = 9223372036854775807;

/// Bytes that separate the fields of a machine line.
pub open spec fn is_separator(c: u8) -> bool {
    c == 43 || c == 61 || c == 88 || c == 89 || c == 44 || c == 58 || c == 32 || c == 65 || c == 66
}

/// First position at or after `i` that is not a separator.
pub open spec fn skip_separators(s: Seq<u8>, i: int) -> int
    decreases s.len() - i,
{
    if 0 <= i < s.len() && is_separator(s[i]) {
        skip_separators(s, i + 1)
    } else {
        i
    }
}

/// First position at or after `i` that is a separator (or the end).
pub open spec fn skip_field(s: Seq<u8>, i: int) -> int
    decreases s.len() - i,
{
    if 0 <= i < s.len() && !is_separator(s[i]) {
        skip_field(s, i + 1)
    } else {
        i
    }
}

/// Bounds `(start, end)` of the `n`-th field at or after `i`, where fields
/// are the non-empty runs between separators.
pub open spec fn nth_field(s: Seq<u8>, i: int, n: nat) -> Option<(int, int)>
    decreases n,
{
    let start = skip_separators(s, i);
    if start < 0 || start >= s.len() {
        None
    } else if n == 0 {
        Some((start, skip_field(s, start)))
    } else {
        nth_field(s, skip_field(s, start), (n - 1) as nat)
    }
}

/// The unsigned value of the field `s[i..j]`, where it is all digits and
/// fits in 64 bits.
pub open spec fn field_value(s: Seq<u8>, i: int, j: int) -> Option<u64> {
    if forall|k: int| i <= k < j ==> is_ascii_digit(#[trigger] s[k]) {
        if decimal_value(s, i, j) <= u64::MAX {
            Some(decimal_value(s, i, j) as u64)
        } else {
            None
        }
    } else {
        None
    }
}

/// The coordinate pair of a machine line: the values of its second and
/// third fields (the first names the line).
pub open spec fn line_pair(s: Seq<u8>) -> Option<(u64, u64)> {
    match (nth_field(s, 0, 1), nth_field(s, 0, 2)) {
        (Some((i1, j1)), Some((i2, j2))) => match (field_value(s, i1, j1), field_value(s, i2, j2)) {
            (Some(x), Some(y)) => Some((x, y)),
            _ => None,
        },
        _ => None,
    }
}

proof fn lemma_skip_bounds(s: Seq<u8>, i: int)
    requires
        0 <= i <= s.len(),
    ensures
        i <= skip_separators(s, i) <= s.len(),
        i <= skip_field(s, i) <= s.len(),
    decreases s.len() - i,
{
    if i < s.len() {
        lemma_skip_bounds(s, i + 1);
    }
}

/// Determinant of the button system.
pub open spec fn det(a: (u64, u64), b: (u64, u64)) -> int {
    a.0 * b.1 - a.1 * b.0
}

/// Pressing `a` `x` times and `b` `y` times reaches `c`.
pub open spec fn solves(a: (u64, u64), b: (u64, u64), c: (u64, u64), x: int, y: int) -> bool {
    a.0 * x + b.0 * y == c.0 && a.1 * x + b.1 * y == c.1
}

pub open spec fn presses_in_range(x: int, y: int) -> bool {
    0 <= x <= u64::MAX && 0 <= y <= u64::MAX
}

/// The press counts that win a machine: defined where the system has a
/// single solution and it is a pair of non-negative 64-bit counts.
pub open spec fn presses(a: (u64, u64), b: (u64, u64), c: (u64, u64)) -> Option<(u64, u64)> {
    if det(a, b) != 0 && exists|x: int, y: int| presses_in_range(x, y) && #[trigger] solves(a, b, c, x, y) {
        let (x, y) = choose|x: int, y: int| presses_in_range(x, y) && #[trigger] solves(a, b, c, x, y);
        Some((x as u64, y as u64))
    } else {
        None
    }
}

/// A system with a non-zero determinant has one solution at most; it is
/// the one Cramer's rule gives.
proof fn lemma_cramer(a: (u64, u64), b: (u64, u64), c: (u64, u64), x: int, y: int)
    requires
        solves(a, b, c, x, y),
    ensures
        x * det(a, b) == c.0 * b.1 - c.1 * b.0,
        y * det(a, b) == c.1 * a.0 - c.0 * a.1,
{
    assert(x * det(a, b) == c.0 * b.1 - c.1 * b.0) by (nonlinear_arith)
        requires
            a.0 * x + b.0 * y == c.0,
            a.1 * x + b.1 * y == c.1,
    ;
    assert(y * det(a, b) == c.1 * a.0 - c.0 * a.1) by (nonlinear_arith)
        requires
            a.0 * x + b.0 * y == c.0,
            a.1 * x + b.1 * y == c.1,
    ;
}

proof fn lemma_unique(a: (u64, u64), b: (u64, u64), c: (u64, u64), x1: int, y1: int, x2: int, y2: int)
    requires
        det(a, b) != 0,
        solves(a, b, c, x1, y1),
        solves(a, b, c, x2, y2),
    ensures
        x1 == x2 && y1 == y2,
{
    lemma_cramer(a, b, c, x1, y1);
    lemma_cramer(a, b, c, x2, y2);
    let d = det(a, b);
    assert(x1 == x2) by (nonlinear_arith)
        requires
            d != 0,
            x1 * d == x2 * d,
    ;
    assert(y1 == y2) by (nonlinear_arith)
        requires
            d != 0,
            y1 * d == y2 * d,
    ;
}

/// The count `n / d` where it is a non-negative whole number of 64 bits.
fn exact_count(n: i128, d: i128) -> (r: Option<u64>)
    requires
        d != 0,
        n > i128::MIN,
        d > i128::MIN,
    ensures
        forall|q: int| 0 <= q <= u64::MAX && #[trigger] (q * d) == n ==> r == Some(q as u64),
        r matches Some(q) ==> q * d == n,
{
    let (un, ud): (u128, u128) = if d > 0 {
        if n < 0 {
            proof {
                assert forall|q: int| 0 <= q <= u64::MAX implies #[trigger] (q * d) != n by {
                    assert(q * d >= 0) by (nonlinear_arith)
                        requires
                            q >= 0,
                            d > 0,
                    ;
                }
            }
            return None;
        }
        (n as u128, d as u128)
    } else {
        if n > 0 {
            proof {
                assert forall|q: int| 0 <= q <= u64::MAX implies #[trigger] (q * d) != n by {
                    assert(q * d <= 0) by (nonlinear_arith)
                        requires
                            q >= 0,
                            d < 0,
                    ;
                }
            }
            return None;
        }
        ((-n) as u128, (-d) as u128)
    };
    assert(forall|q: int| #[trigger] (q * d) == n ==> q * ud == un) by {
        assert forall|q: int| #[trigger] (q * d) == n implies q * ud == un by {
            if d < 0 {
                assert(q * ud == -(q * d)) by (nonlinear_arith)
                    requires
                        ud == -d,
                ;
            }
        }
    }
    if un % ud != 0 {
        proof {
            assert forall|q: int| 0 <= q <= u64::MAX implies #[trigger] (q * d) != n by {
                if q * d == n {
                    lemma_mod_multiples_basic(q, ud as int);
                }
            }
        }
        return None;
    }
    let q = un / ud;
    proof {
        assert(q * ud == un) by (nonlinear_arith)
            requires
                un % ud == 0,
                q == un / ud,
                ud > 0,
        ;
        assert forall|p: int| 0 <= p <= u64::MAX && #[trigger] (p * d) == n implies p == q by {
            lemma_div_multiples_vanish(p, ud as int);
            assert(ud * p == p * ud) by (nonlinear_arith);
        }
    }
    if q > u64::MAX as u128 {
        return None;
    }
    proof {
        if d < 0 {
            assert(q * d == n) by (nonlinear_arith)
                requires
                    q * ud == un,
                    ud == -d,
                    un == -n,
            ;
        }
    }
    Some(q as u64)
}

/// One claw machine: the steps of buttons A and B and the prize position.
#[derive(Clone, Copy, Debug)]
pub struct Machine {
    pub button_a: (u64, u64),
    pub button_b: (u64, u64),
    pub prize: (u64, u64),
}

/// Position just past the separators that start at `i`.
fn skip_separator_bytes(s: &[u8], i: usize) -> (r: usize)
    requires
        i <= s.len(),
    ensures
        r == skip_separators(s@, i as int),
{
    let mut k = i;
    while k < s.len() && is_separator_byte(s[k])
        invariant
            i <= k <= s.len(),
            skip_separators(s@, k as int) == skip_separators(s@, i as int),
        decreases s.len() - k,
    {
        k += 1;
    }
    k
}

/// Position just past the field that starts at `i`.
fn skip_field_bytes(s: &[u8], i: usize) -> (r: usize)
    requires
        i <= s.len(),
    ensures
        r == skip_field(s@, i as int),
{
    let mut k = i;
    while k < s.len() && !is_separator_byte(s[k])
        invariant
            i <= k <= s.len(),
            skip_field(s@, k as int) == skip_field(s@, i as int),
        decreases s.len() - k,
    {
        k += 1;
    }
    k
}

fn is_separator_byte(c: u8) -> (r: bool)
    ensures
        r == is_separator(c),
{
    c == 43 || c == 61 || c == 88 || c == 89 || c == 44 || c == 58 || c == 32 || c == 65 || c == 66
}

/// Value of the field `s[i..j]`.
pub(crate) fn parse_field(s: &[u8], i: usize, j: usize) -> (r: Option<u64>)
    requires
        i <= j <= s.len(),
    ensures
        r == field_value(s@, i as int, j as int),
{
    let mut value: u64 = 0;
    let mut fits = true;
    let mut k = i;
    while k < j
        invariant
            i <= k <= j <= s.len(),
            forall|m: int| i <= m < k ==> is_ascii_digit(#[trigger] s@[m]),
            fits ==> value == decimal_value(s@, i as int, k as int),
            !fits ==> decimal_value(s@, i as int, k as int) > u64::MAX,
            decimal_value(s@, i as int, k as int) >= 0,
        decreases j - k,
    {
        if !(48 <= s[k] && s[k] <= 57) {
            return None;
        }
        let d = (s[k] - 48) as u64;
        if fits {
            match value.checked_mul(10) {
                Some(t) => match t.checked_add(d) {
                    Some(v) => {
                        value = v;
                    },
                    None => {
                        fits = false;
                    },
                },
                None => {
                    fits = false;
                },
            }
        }
        assert(decimal_value(s@, i as int, k + 1) == decimal_value(s@, i as int, k as int) * 10 + d);
        k += 1;
    }
    if fits {
        Some(value)
    } else {
        None
    }
}

impl Machine {
    /// Builds a machine from its three lines: button A, button B, prize.
    pub fn parse_machine(lines: &Vec<String>) -> (r: Option<Machine>)
        ensures
            r is Some <==> lines@.len() >= 3
                && line_pair(encode_utf8(lines@[0]@)) is Some
                && line_pair(encode_utf8(lines@[1]@)) is Some
                && line_pair(encode_utf8(lines@[2]@)) is Some,
            r matches Some(m) ==> {
                &&& Some(m.button_a) == line_pair(encode_utf8(lines@[0]@))
                &&& Some(m.button_b) == line_pair(encode_utf8(lines@[1]@))
                &&& Some(m.prize) == line_pair(encode_utf8(lines@[2]@))
            },
    {
        if lines.len() < 3 {
            return None;
        }
        let button_a = match Machine::parse_from_line(lines[0].as_str()) {
            Some(p) => p,
            None => return None,
        };
        let button_b = match Machine::parse_from_line(lines[1].as_str()) {
            Some(p) => p,
            None => return None,
        };
        let prize = match Machine::parse_from_line(lines[2].as_str()) {
            Some(p) => p,
            None => return None,
        };
        Some(Machine { button_a, button_b, prize })
    }

    /// Reads the coordinate pair of a line such as `Button A: X+94, Y+34`
    /// or `Prize: X=8400, Y=5400`.
    pub fn parse_from_line(line: &str) -> (r: Option<(u64, u64)>)
        ensures
            r == line_pair(line.spec_bytes()),
    {
        let s = line.as_bytes();
        proof {
            lemma_skip_bounds(s@, 0);
        }
        let i0 = skip_separator_bytes(s, 0);
        if i0 >= s.len() {
            return None;
        }
        let j0 = skip_field_bytes(s, i0);
        proof {
            lemma_skip_bounds(s@, i0 as int);
            lemma_skip_bounds(s@, j0 as int);
        }
        let i1 = skip_separator_bytes(s, j0);
        assert(nth_field(s@, 0, 1) == nth_field(s@, j0 as int, 0));
        if i1 >= s.len() {
            return None;
        }
        let j1 = skip_field_bytes(s, i1);
        proof {
            lemma_skip_bounds(s@, i1 as int);
            lemma_skip_bounds(s@, j1 as int);
        }
        let i2 = skip_separator_bytes(s, j1);
        assert(nth_field(s@, 0, 2) == nth_field(s@, j0 as int, 1));
        assert(nth_field(s@, j0 as int, 1) == nth_field(s@, j1 as int, 0));
        if i2 >= s.len() {
            return None;
        }
        let j2 = skip_field_bytes(s, i2);
        proof {
            lemma_skip_bounds(s@, i2 as int);
        }
        assert(nth_field(s@, 0, 1) == Some((i1 as int, j1 as int)));
        assert(nth_field(s@, 0, 2) == Some((i2 as int, j2 as int)));
        let x = match parse_field(s, i1, j1) {
            Some(x) => x,
            None => return None,
        };
        let y = match parse_field(s, i2, j2) {
            Some(y) => y,
            None => return None,
        };
        Some((x, y))
    }
}

/// All machines of a puzzle.
pub struct Dataset(pub Vec<Machine>);

/// The six cross products that Cramer's rule forms fit in 63 bits.
pub open spec fn products_fit(a: (u64, u64), b: (u64, u64), c: (u64, u64)) -> bool {
    &&& a.0 * b.1 <= PRODUCT_MAX && a.1 * b.0 <= PRODUCT_MAX
    &&& c.0 * b.1 <= PRODUCT_MAX && c.1 * b.0 <= PRODUCT_MAX
    &&& c.1 * a.0 <= PRODUCT_MAX && c.0 * a.1 <= PRODUCT_MAX
}

pub open spec fn machine_fits(m: Machine) -> bool {
    products_fit(m.button_a, m.button_b, m.prize)
}

/// Tokens spent on one machine: three per press of A, one per press of B,
/// nothing where the prize cannot be won.
pub open spec fn machine_cost(m: Machine) -> int {
    match presses(m.button_a, m.button_b, m.prize) {
        Some((x, y)) => 3 * x + y,
        None => 0,
    }
}

pub open spec fn cost_upto(ms: Seq<Machine>, n: int) -> int
    decreases n,
{
    if n <= 0 {
        0
    } else {
        cost_upto(ms, n - 1) + machine_cost(ms[n - 1])
    }
}

proof fn lemma_cost_monotone(ms: Seq<Machine>, i: int, j: int)
    requires
        0 <= i <= j,
    ensures
        0 <= cost_upto(ms, i) <= cost_upto(ms, j),
    decreases j,
{
    if j > i {
        lemma_cost_monotone(ms, i, j - 1);
        lemma_presses_nonneg(ms[j - 1]);
    } else if i > 0 {
        lemma_cost_monotone(ms, i - 1, i - 1);
        lemma_presses_nonneg(ms[i - 1]);
    }
}

proof fn lemma_presses_nonneg(m: Machine)
    ensures
        machine_cost(m) >= 0,
{
}

fn product_fits(x: u64, y: u64) -> (r: bool)
    ensures
        r == (x * y <= PRODUCT_MAX),
{
    assert(x * y <= u64::MAX * u64::MAX) by (nonlinear_arith)
        requires
            x <= u64::MAX,
            y <= u64::MAX,
    ;
    (x as u128) * (y as u128) <= PRODUCT_MAX as u128
}

fn prize_fits(a: (u64, u64), b: (u64, u64), c: (u64, u64)) -> (r: bool)
    ensures
        r == products_fit(a, b, c),
{
    product_fits(a.0, b.1) && product_fits(a.1, b.0) && product_fits(c.0, b.1) && product_fits(c.1, b.0)
        && product_fits(c.1, a.0) && product_fits(c.0, a.1)
}

/// The machine once its prize is moved by the offset.
pub open spec fn adjusted(m: Machine) -> Machine {
    Machine { button_a: m.button_a, button_b: m.button_b, prize: ((m.prize.0 + PRIZE_OFFSET) as u64, (m.prize.1 + PRIZE_OFFSET) as u64) }
}

impl Dataset {
    /// Whether the equation solver takes every machine as it is.
    pub fn can_solve(&self) -> (r: bool)
        ensures
            r == forall|i: int| 0 <= i < self.0@.len() ==> machine_fits(#[trigger] self.0@[i]),
    {
        let mut k: usize = 0;
        while k < self.0.len()
            invariant
                k <= self.0.len(),
                forall|i: int| 0 <= i < k ==> machine_fits(#[trigger] self.0@[i]),
            decreases self.0.len() - k,
        {
            let m = self.0[k];
            if !prize_fits(m.button_a, m.button_b, m.prize) {
                return false;
            }
            k += 1;
        }
        true
    }

    /// Whether every prize can be moved by the offset and the solver then
    /// takes every machine.
    pub fn can_adjust(&self) -> (r: bool)
        ensures
            r == forall|i: int| 0 <= i < self.0@.len() ==> {
                &&& (#[trigger] self.0@[i]).prize.0 + PRIZE_OFFSET <= u64::MAX
                &&& self.0@[i].prize.1 + PRIZE_OFFSET <= u64::MAX
                &&& machine_fits(adjusted(self.0@[i]))
            },
    {
        let mut k: usize = 0;
        while k < self.0.len()
            invariant
                k <= self.0.len(),
                forall|i: int| 0 <= i < k ==> {
                    &&& (#[trigger] self.0@[i]).prize.0 + PRIZE_OFFSET <= u64::MAX
                    &&& self.0@[i].prize.1 + PRIZE_OFFSET <= u64::MAX
                    &&& machine_fits(adjusted(self.0@[i]))
                },
            decreases self.0.len() - k,
        {
            let m = self.0[k];
            if m.prize.0 > u64::MAX - PRIZE_OFFSET || m.prize.1 > u64::MAX - PRIZE_OFFSET {
                return false;
            }
            let moved = (m.prize.0 + PRIZE_OFFSET, m.prize.1 + PRIZE_OFFSET);
            if !prize_fits(m.button_a, m.button_b, moved) {
                return false;
            }
            k += 1;
        }
        true
    }

    /// Moves every prize by the offset on both axes.
    pub fn adjust_prize(&mut self)
        requires
            forall|i: int| 0 <= i < old(self).0@.len() ==>
                (#[trigger] old(self).0@[i]).prize.0 + PRIZE_OFFSET <= u64::MAX
                && old(self).0@[i].prize.1 + PRIZE_OFFSET <= u64::MAX,
        ensures
            final(self).0@.len() == old(self).0@.len(),
            forall|i: int| 0 <= i < final(self).0@.len() ==> {
                &&& (#[trigger] final(self).0@[i]).button_a == old(self).0@[i].button_a
                &&& final(self).0@[i].button_b == old(self).0@[i].button_b
                &&& final(self).0@[i].prize.0 == old(self).0@[i].prize.0 + PRIZE_OFFSET
                &&& final(self).0@[i].prize.1 == old(self).0@[i].prize.1 + PRIZE_OFFSET
            },
    {
        let ghost start = self.0@;
        let mut idx: usize = 0;
        while idx < self.0.len()
            invariant
                idx <= self.0.len(),
                self.0@.len() == start.len(),
                forall|i: int| 0 <= i < start.len() ==>
                    (#[trigger] start[i]).prize.0 + PRIZE_OFFSET <= u64::MAX
                    && start[i].prize.1 + PRIZE_OFFSET <= u64::MAX,
                forall|i: int| idx <= i < start.len() ==> #[trigger] self.0@[i] == start[i],
                forall|i: int| 0 <= i < idx ==> {
                    &&& (#[trigger] self.0@[i]).button_a == start[i].button_a
                    &&& self.0@[i].button_b == start[i].button_b
                    &&& self.0@[i].prize.0 == start[i].prize.0 + PRIZE_OFFSET
                    &&& self.0@[i].prize.1 == start[i].prize.1 + PRIZE_OFFSET
                },
            decreases self.0.len() - idx,
        {
            let m = self.0[idx];
            let moved = Machine {
                button_a: m.button_a,
                button_b: m.button_b,
                prize: (m.prize.0 + PRIZE_OFFSET, m.prize.1 + PRIZE_OFFSET),
            };
            self.0.set(idx, moved);
            idx += 1;
        }
    }

    /// Fewest tokens that win every prize that can be won; `None` where the
    /// total does not fit in 64 bits.
    pub fn cal_cost(&self) -> (r: Option<u64>)
        requires
            forall|i: int| 0 <= i < self.0@.len() ==> machine_fits(#[trigger] self.0@[i]),
        ensures
            r is Some <==> cost_upto(self.0@, self.0@.len() as int) <= u64::MAX,
            r matches Some(v) ==> v == cost_upto(self.0@, self.0@.len() as int),
    {
        let mut ret: u64 = 0;
        let mut idx: usize = 0;
        while idx < self.0.len()
            invariant
                idx <= self.0.len(),
                forall|i: int| 0 <= i < self.0@.len() ==> machine_fits(#[trigger] self.0@[i]),
                ret == cost_upto(self.0@, idx as int),
            decreases self.0.len() - idx,
        {
            let m = self.0[idx];
            proof {
                lemma_cost_monotone(self.0@, idx + 1, self.0@.len() as int);
            }
            let term: u128 = match Dataset::solve_equation(m.button_a, m.button_b, m.prize) {
                Some((x, y)) => 3 * (x as u128) + (y as u128),
                None => 0,
            };
            assert(term == machine_cost(m));
            if term > (u64::MAX - ret) as u128 {
                return None;
            }
            ret = ret + term as u64;
            idx += 1;
        }
        Some(ret)
    }

    /// Press counts `(x, y)` with `x * a + y * b == c` on both axes, where
    /// the system has one solution and it is non-negative.
    pub fn solve_equation(a: (u64, u64), b: (u64, u64), c: (u64, u64)) -> (r: Option<(u64, u64)>)
        requires
            products_fit(a, b, c),
        ensures
            r == presses(a, b, c),
    {
        let (a1, a2) = (a.0 as i128, a.1 as i128);
        let (b1, b2) = (b.0 as i128, b.1 as i128);
        let (c1, c2) = (c.0 as i128, c.1 as i128);
        assert(0 <= a1 * b2 && 0 <= a2 * b1 && 0 <= c1 * b2 && 0 <= c2 * b1 && 0 <= c2 * a1 && 0 <= c1 * a2)
            by (nonlinear_arith)
            requires
                0 <= a1,
                0 <= a2,
                0 <= b1,
                0 <= b2,
                0 <= c1,
                0 <= c2,
        ;
        let d = a1 * b2 - a2 * b1;
        if d == 0 {
            return None;
        }
        let nx = c1 * b2 - c2 * b1;
        let ny = c2 * a1 - c1 * a2;
        proof {
            assert forall|x: int, y: int| #[trigger] solves(a, b, c, x, y) implies
                x * d == nx && y * d == ny by {
                lemma_cramer(a, b, c, x, y);
            }
        }
        let ox = exact_count(nx, d);
        let oy = exact_count(ny, d);
        match (ox, oy) {
            (Some(x), Some(y)) => {
                proof {
                    let xi = x as int;
                    let yi = y as int;
                    assert(d * (a1 * xi + b1 * yi) == a1 * (xi * d) + b1 * (yi * d)) by (nonlinear_arith);
                    assert(a1 * nx + b1 * ny == c1 * d) by (nonlinear_arith)
                        requires
                            d == a1 * b2 - a2 * b1,
                            nx == c1 * b2 - c2 * b1,
                            ny == c2 * a1 - c1 * a2,
                    ;
                    assert(d * (a1 * xi + b1 * yi) == d * c1);
                    assert(d * (a2 * xi + b2 * yi) == a2 * (xi * d) + b2 * (yi * d)) by (nonlinear_arith);
                    assert(a2 * nx + b2 * ny == c2 * d) by (nonlinear_arith)
                        requires
                            d == a1 * b2 - a2 * b1,
                            nx == c1 * b2 - c2 * b1,
                            ny == c2 * a1 - c1 * a2,
                    ;
                    assert(d * (a2 * xi + b2 * yi) == d * c2);
                    assert(a1 * xi + b1 * yi == c1) by (nonlinear_arith)
                        requires
                            d != 0,
                            d * (a1 * xi + b1 * yi) == d * c1,
                    ;
                    assert(a2 * xi + b2 * yi == c2) by (nonlinear_arith)
                        requires
                            d != 0,
                            d * (a2 * xi + b2 * yi) == d * c2,
                    ;
                    assert(solves(a, b, c, xi, yi));
                    assert(presses_in_range(xi, yi));
                    let (px, py) = choose|px: int, py: int| presses_in_range(px, py) && #[trigger] solves(a, b, c, px, py);
                    lemma_unique(a, b, c, xi, yi, px, py);
                }
                Some((x, y))
            },
            _ => {
                proof {
                    if exists|x: int, y: int| presses_in_range(x, y) && #[trigger] solves(a, b, c, x, y) {
                        let (x, y) = choose|x: int, y: int| presses_in_range(x, y) && #[trigger] solves(a, b, c, x, y);
                        lemma_cramer(a, b, c, x, y);
                        assert(x * d == nx);
                        assert(y * d == ny);
                    }
                }
                None
            },
        }
    }
}

} // verus!
