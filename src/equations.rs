//! Calibration equations: can the numbers, combined strictly from left to
//! right with `+`, `*` (and digit concatenation), make the test value?
use vstd::prelude::*;
use std::collections::HashSet;
use crate::stones::{ndigits, pow10};
use crate::text::{fields, lines_of, read_unsigned, unsigned_fields};

verus! {

broadcast use vstd::std_specs::hash::group_hash_axioms;

/// The digits of `a` followed by those of `b`, read as one number.
pub open spec fn concat(a: int, b: int) -> int {
    a * pow10(ndigits(b as nat)) + b
}

/// The values that `c[i..]` makes from `prev`, each step adding,
/// multiplying or (with `cat`) concatenating the next number.
pub open spec fn results(c: Seq<u64>, prev: int, i: int, cat: bool) -> Set<int>
    decreases c.len() - i,
{
    if i < 0 || i >= c.len() {
        set![prev]
    } else {
        let both = results(c, prev + c[i], i + 1, cat).union(results(c, prev * c[i], i + 1, cat));
        if cat {
            both.union(results(c, concat(prev, c[i] as int), i + 1, cat))
        } else {
            both
        }
    }
}

/// Every value met on the way, from `prev` on, fits in 64 bits.
pub open spec fn fits(c: Seq<u64>, prev: int, i: int, cat: bool) -> bool
    decreases c.len() - i,
{
    &&& 0 <= prev <= u64::MAX
    &&& (0 <= i < c.len()) ==> {
        &&& fits(c, prev + c[i], i + 1, cat)
        &&& fits(c, prev * c[i], i + 1, cat)
        &&& cat ==> fits(c, concat(prev, c[i] as int), i + 1, cat)
    }
}

/// The test value can be made from the numbers.
pub open spec fn solvable(answer: u64, c: Seq<u64>, cat: bool) -> bool {
    results(c, c[0] as int, 1, cat).contains(answer as int)
}

/// Sum of the test values, among the first `n` equations, that can be made.
pub open spec fn calibration_upto(d: Seq<(u64, Vec<u64>)>, n: int, cat: bool) -> int
    decreases n,
{
    if n <= 0 {
        0
    } else {
        calibration_upto(d, n - 1, cat) + if solvable(d[n - 1].0, d[n - 1].1@, cat) { d[n - 1].0 as int } else { 0 }
    }
}

/// All of the first `n` equations can be searched in 64 bits.
pub open spec fn all_fit_upto(d: Seq<(u64, Vec<u64>)>, n: int, cat: bool) -> bool {
    forall|k: int| 0 <= k < n ==> fits((#[trigger] d[k]).1@, d[k].1@[0] as int, 1, cat)
}

proof fn lemma_calibration_monotone(d: Seq<(u64, Vec<u64>)>, i: int, j: int, cat: bool)
    requires
        0 <= i <= j,
    ensures
        0 <= calibration_upto(d, i, cat) <= calibration_upto(d, j, cat),
    decreases j,
{
    if j > i {
        lemma_calibration_monotone(d, i, j - 1, cat);
    } else if i > 0 {
        lemma_calibration_monotone(d, i - 1, i - 1, cat);
    }
}

proof fn lemma_pow10_positive(n: nat)
    ensures
        pow10(n) >= 1,
    decreases n,
{
    if n > 0 {
        lemma_pow10_positive((n - 1) as nat);
    }
}

/// `a` followed by the digits of `b`; `None` where that does not fit in 64
/// bits.
fn concat_number(a: u64, b: u64) -> (r: Option<u64>)
    ensures
        r is Some <==> concat(a as int, b as int) <= u64::MAX,
        r matches Some(v) ==> v == concat(a as int, b as int),
{
    let mut x = b;
    let mut p: u64 = 10;
    let mut big = false;
    proof {
        lemma_pow10_positive(ndigits(b as nat));
        reveal_with_fuel(pow10, 2);
    }
    while x >= 10
        invariant
            1 <= ndigits(x as nat),
            ndigits(b as nat) >= ndigits(x as nat),
            !big ==> p == pow10((ndigits(b as nat) - ndigits(x as nat) + 1) as nat),
            big ==> pow10((ndigits(b as nat) - ndigits(x as nat) + 1) as nat) > u64::MAX,
        decreases x,
    {
        let ghost k = (ndigits(b as nat) - ndigits(x as nat) + 1) as nat;
        proof {
            lemma_pow10_positive(k);
            assert(pow10(k + 1) == 10 * pow10(k));
        }
        if !big {
            match p.checked_mul(10) {
                Some(q) => {
                    p = q;
                },
                None => {
                    big = true;
                },
            }
        }
        x = x / 10;
    }
    let ghost q = pow10(ndigits(b as nat));
    proof {
        lemma_pow10_positive(ndigits(b as nat));
    }
    if a == 0 {
        assert(concat(a as int, b as int) == b);
        return Some(b);
    }
    if big {
        assert(a * q >= q) by (nonlinear_arith)
            requires
                a >= 1,
                q >= 1,
        ;
        return None;
    }
    match a.checked_mul(p) {
        Some(m) => match m.checked_add(b) {
            Some(v) => Some(v),
            None => None,
        },
        None => None,
    }
}

/// Every `a + b` and `a * b` with `a` in `xs` and `b` in `ys`.
pub open spec fn combine(xs: Set<int>, ys: Set<int>) -> Set<int> {
    Set::new(|v: int| exists|a: int, b: int| xs.contains(a) && ys.contains(b) && (v == a + b || v == a * b))
}

/// The values of `c` under every bracketing, with `+` or `*` between
/// neighbours.
pub open spec fn bracketed(c: Seq<u64>) -> Set<int>
    decreases c.len(), c.len() + 1,
{
    if c.len() == 0 {
        Set::empty()
    } else if c.len() == 1 {
        set![c[0] as int]
    } else {
        split_values(c, 1)
    }
}

/// The values of `c` split first at a point from `idx` on.
pub open spec fn split_values(c: Seq<u64>, idx: int) -> Set<int>
    decreases c.len(), c.len() - idx,
{
    if idx < 1 || idx >= c.len() {
        Set::empty()
    } else {
        combine(bracketed(c.subrange(0, idx)), bracketed(c.subrange(idx, c.len() as int))).union(split_values(c, idx + 1))
    }
}

/// No value met while bracketing `c` leaves 64 bits.
pub open spec fn bracketing_fits(c: Seq<u64>) -> bool
    decreases c.len(), c.len() + 1,
{
    c.len() <= 1 || splits_fit(c, 1)
}

pub open spec fn splits_fit(c: Seq<u64>, idx: int) -> bool
    decreases c.len(), c.len() - idx,
{
    if idx < 1 || idx >= c.len() {
        true
    } else {
        &&& bracketing_fits(c.subrange(0, idx))
        &&& bracketing_fits(c.subrange(idx, c.len() as int))
        &&& forall|v: int| #[trigger] combine(bracketed(c.subrange(0, idx)), bracketed(c.subrange(idx, c.len() as int))).contains(v)
            ==> v <= u64::MAX
        &&& splits_fit(c, idx + 1)
    }
}

/// The values of `list` as a set of integers.
pub open spec fn values(list: Seq<u64>) -> Set<int> {
    Set::new(|v: int| exists|k: int| 0 <= k < list.len() && list[k] as int == v)
}

/// `a + b` and `a * b` for `b` in `ys`.
pub open spec fn combine_one(a: int, ys: Set<int>) -> Set<int> {
    Set::new(|v: int| exists|b: int| ys.contains(b) && (v == a + b || v == a * b))
}

proof fn lemma_values_push(list: Seq<u64>, x: u64)
    ensures
        values(list.push(x)) == values(list).insert(x as int),
{
    assert forall|v: int| values(list.push(x)).contains(v) <==> values(list).insert(x as int).contains(v) by {
        if values(list.push(x)).contains(v) {
            let k = choose|k: int| 0 <= k < list.push(x).len() && list.push(x)[k] as int == v;
            if k < list.len() {
                assert(list[k] as int == v);
            }
        }
        if values(list).contains(v) {
            let k = choose|k: int| 0 <= k < list.len() && list[k] as int == v;
            assert(list.push(x)[k] as int == v);
        }
        if v == x as int {
            assert(list.push(x)[list.len() as int] as int == v);
        }
    }
    assert(values(list.push(x)) =~= values(list).insert(x as int));
}

proof fn lemma_values_prefix(list: Seq<u64>, i: int)
    requires
        0 <= i < list.len(),
    ensures
        values(list.subrange(0, i + 1)) == values(list.subrange(0, i)).insert(list[i] as int),
{
    assert(list.subrange(0, i + 1) =~= list.subrange(0, i).push(list[i]));
    lemma_values_push(list.subrange(0, i), list[i]);
}

/// Appends to `out` every `a + b` and `a * b` for `a` in `xs`, `b` in
/// `ys`; false where one leaves 64 bits.
fn combine_lists(xs: &Vec<u64>, ys: &Vec<u64>, out: &mut Vec<u64>) -> (ok: bool)
    ensures
        ok <==> forall|v: int| #[trigger] combine(values(xs@), values(ys@)).contains(v) ==> v <= u64::MAX,
        ok ==> values(final(out)@) == values(old(out)@).union(combine(values(xs@), values(ys@))),
{
    let ghost start = out@;
    let ghost yv = values(ys@);
    let mut i: usize = 0;
    while i < xs.len()
        invariant
            i <= xs.len(),
            yv == values(ys@),
            values(out@) == values(start).union(combine(values(xs@.subrange(0, i as int)), yv)),
            forall|v: int| #[trigger] values(out@).contains(v) ==> 0 <= v <= u64::MAX,
            forall|v: int| #[trigger] values(start).contains(v) ==> 0 <= v <= u64::MAX,
        decreases xs.len() - i,
    {
        let a = xs[i];
        let ghost before_i = out@;
        let mut j: usize = 0;
        while j < ys.len()
            invariant
                i < xs.len(),
                a == xs@[i as int],
                j <= ys.len(),
                yv == values(ys@),
                values(out@) == values(before_i).union(combine_one(a as int, values(ys@.subrange(0, j as int)))),
                values(before_i) == values(start).union(combine(values(xs@.subrange(0, i as int)), yv)),
                forall|v: int| #[trigger] values(out@).contains(v) ==> 0 <= v <= u64::MAX,
                forall|v: int| #[trigger] values(start).contains(v) ==> 0 <= v <= u64::MAX,
            decreases ys.len() - j,
        {
            let b = ys[j];
            proof {
                lemma_values_prefix(ys@, j as int);
                assert(yv.contains(b as int)) by {
                    assert(ys@[j as int] as int == b as int);
                }
                assert(values(xs@).contains(a as int)) by {
                    assert(xs@[i as int] as int == a as int);
                }
            }
            let sum = match a.checked_add(b) {
                Some(x) => x,
                None => {
                    assert(combine(values(xs@), yv).contains(a + b));
                    return false;
                },
            };
            let prod = match a.checked_mul(b) {
                Some(x) => x,
                None => {
                    assert(combine(values(xs@), yv).contains(a * b));
                    return false;
                },
            };
            let ghost o0 = out@;
            out.push(sum);
            proof {
                lemma_values_push(o0, sum);
            }
            let ghost o1 = out@;
            out.push(prod);
            proof {
                lemma_values_push(o1, prod);
                let ysj = values(ys@.subrange(0, j as int));
                let ysj1 = values(ys@.subrange(0, j + 1));
                assert(combine_one(a as int, ysj1) =~= combine_one(a as int, ysj).insert(sum as int).insert(prod as int)) by {
                    assert forall|v: int| #[trigger] combine_one(a as int, ysj1).contains(v) implies
                        combine_one(a as int, ysj).insert(sum as int).insert(prod as int).contains(v) by {
                        let bb = choose|bb: int| ysj1.contains(bb) && (v == a + bb || v == a * bb);
                        if bb != b as int {
                            assert(ysj.contains(bb));
                        }
                    }
                    assert forall|v: int| #[trigger] combine_one(a as int, ysj).insert(sum as int).insert(prod as int).contains(v)
                        implies combine_one(a as int, ysj1).contains(v) by {
                        if v == sum as int || v == prod as int {
                            assert(ysj1.contains(b as int));
                        } else {
                            let bb = choose|bb: int| ysj.contains(bb) && (v == a + bb || v == a * bb);
                            assert(ysj1.contains(bb));
                        }
                    }
                }
                assert(values(out@) =~= values(before_i).union(combine_one(a as int, ysj1)));
            }
            j += 1;
        }
        proof {
            assert(ys@.subrange(0, ys@.len() as int) =~= ys@);
            lemma_values_prefix(xs@, i as int);
            let xi = values(xs@.subrange(0, i as int));
            let xi1 = values(xs@.subrange(0, i + 1));
            assert(combine(xi1, yv) =~= combine(xi, yv).union(combine_one(a as int, yv))) by {
                assert forall|v: int| #[trigger] combine(xi1, yv).contains(v) implies combine(xi, yv).union(combine_one(a as int, yv)).contains(v) by {
                    let (aa, bb) = choose|aa: int, bb: int| xi1.contains(aa) && yv.contains(bb) && (v == aa + bb || v == aa * bb);
                    if aa != a as int {
                        assert(xi.contains(aa));
                    }
                }
                assert forall|v: int| #[trigger] combine(xi, yv).union(combine_one(a as int, yv)).contains(v) implies combine(xi1, yv).contains(v) by {
                    if combine(xi, yv).contains(v) {
                        let (aa, bb) = choose|aa: int, bb: int| xi.contains(aa) && yv.contains(bb) && (v == aa + bb || v == aa * bb);
                        assert(xi1.contains(aa));
                    } else {
                        let bb = choose|bb: int| yv.contains(bb) && (v == a + bb || v == a * bb);
                        assert(xi1.contains(a as int));
                    }
                }
            }
            assert(values(out@) =~= values(start).union(combine(xi1, yv)));
        }
        i += 1;
    }
    proof {
        assert(xs@.subrange(0, xs@.len() as int) =~= xs@);
        assert forall|v: int| #[trigger] combine(values(xs@), values(ys@)).contains(v) implies v <= u64::MAX by {
            assert(values(out@).contains(v));
        }
    }
    true
}

/// The values of `c` under every bracketing, as a list; `None` where a
/// value met on the way leaves 64 bits.
fn bracketed_list(c: &[u64]) -> (r: Option<Vec<u64>>)
    ensures
        r is Some <==> bracketing_fits(c@),
        r matches Some(l) ==> values(l@) == bracketed(c@),
    decreases c@.len(),
{
    let n = c.len();
    if n == 0 {
        let l: Vec<u64> = Vec::new();
        assert(values(l@) =~= bracketed(c@));
        return Some(l);
    }
    if n == 1 {
        let mut l: Vec<u64> = Vec::new();
        l.push(c[0]);
        proof {
            assert forall|v: int| values(l@).contains(v) <==> bracketed(c@).contains(v) by {
                if v == c@[0] as int {
                    assert(l@[0] as int == v);
                }
            }
            assert(values(l@) =~= bracketed(c@));
        }
        return Some(l);
    }
    let mut out: Vec<u64> = Vec::new();
    let mut idx: usize = 1;
    proof {
        assert(values(out@) =~= Set::<int>::empty());
    }
    while idx < n
        invariant
            n == c@.len(),
            n >= 2,
            1 <= idx <= n,
            bracketed(c@) == values(out@).union(split_values(c@, idx as int)),
            bracketing_fits(c@) == splits_fit(c@, idx as int),
        decreases n - idx,
    {
        let left_slice = &c[0..idx];
        let right_slice = &c[idx..n];
        assert(left_slice@ =~= c@.subrange(0, idx as int));
        assert(right_slice@ =~= c@.subrange(idx as int, n as int));
        let left = match bracketed_list(left_slice) {
            Some(l) => l,
            None => return None,
        };
        let right = match bracketed_list(right_slice) {
            Some(l) => l,
            None => return None,
        };
        let ghost before = out@;
        if !combine_lists(&left, &right, &mut out) {
            return None;
        }
        proof {
            assert(bracketed(c@) =~= values(out@).union(split_values(c@, idx + 1)));
        }
        idx += 1;
    }
    proof {
        assert(values(out@).union(split_values(c@, n as int)) =~= values(out@));
    }
    Some(out)
}

/// Separators of an equation line: colon, space, tab, carriage return.
pub open spec fn equation_seps() -> Seq<u8> {
    seq![58u8, 32u8, 9u8, 13u8]
}

/// An equation line holds a test value and at least one number.
pub open spec fn equation_line(line: Seq<u8>) -> bool {
    unsigned_fields(line, equation_seps()) matches Some(v) && v.len() >= 2
}

/// The equations that a text gives, one per non-empty line `value: numbers`.
pub open spec fn equations_of(text: Seq<u8>) -> Option<Seq<(u64, Seq<u64>)>> {
    let ls = lines_of(text);
    if forall|k: int| 0 <= k < ls.len() ==> #[trigger] equation_line(text.subrange(ls[k].0, ls[k].1)) {
        Some(Seq::new(ls.len(), |k: int| {
            let v = unsigned_fields(text.subrange(ls[k].0, ls[k].1), equation_seps())->Some_0;
            (v[0], v.subrange(1, v.len() as int))
        }))
    } else {
        None
    }
}

/// Equations: each test value with its numbers.
pub struct Solution {
    pub dataset: Vec<(u64, Vec<u64>)>,
    pub answer_part_one: u64,
    pub answer_part_two: u64,
}

impl Solution {
    /// Reads the equations from text, one per line: the test value, a
    /// colon, then the numbers.
    pub fn load_data(text: &[u8]) -> (r: Option<Solution>)
        ensures
            r is Some <==> equations_of(text@) is Some,
            r matches Some(sol) ==> {
                &&& sol.answer_part_one == 0 && sol.answer_part_two == 0
                &&& sol.dataset@.len() == equations_of(text@)->Some_0.len()
                &&& forall|k: int| 0 <= k < sol.dataset@.len() ==> (#[trigger] sol.dataset@[k]).0 == equations_of(text@)->Some_0[k].0
                    && sol.dataset@[k].1@ == equations_of(text@)->Some_0[k].1
            },
    {
        let ghost ls = lines_of(text@);
        let nl: [u8; 1] = [10u8];
        assert(nl@ =~= seq![10u8]);
        let lines = fields(text, nl.as_slice());
        let seps: [u8; 4] = [58u8, 32u8, 9u8, 13u8];
        assert(seps@ =~= equation_seps());
        let mut dataset: Vec<(u64, Vec<u64>)> = Vec::new();
        let mut k: usize = 0;
        while k < lines.len()
            invariant
                ls == lines_of(text@),
                seps@ == equation_seps(),
                lines@.len() == ls.len(),
                forall|m: int| 0 <= m < lines@.len() ==> (#[trigger] lines@[m]).0 == ls[m].0 && lines@[m].1 == ls[m].1
                    && lines@[m].0 <= lines@[m].1 <= text@.len(),
                k <= lines.len(),
                dataset@.len() == k,
                forall|m: int| 0 <= m < k ==> #[trigger] equation_line(text@.subrange(ls[m].0, ls[m].1)),
                forall|m: int| 0 <= m < k ==> {
                    let v = unsigned_fields(text@.subrange(ls[m].0, ls[m].1), equation_seps())->Some_0;
                    (#[trigger] dataset@[m]).0 == v[0] && dataset@[m].1@ == v.subrange(1, v.len() as int)
                },
            decreases lines.len() - k,
        {
            let (a, b) = lines[k];
            let line = &text[a..b];
            assert(line@ =~= text@.subrange(ls[k as int].0, ls[k as int].1));
            let v = match read_unsigned(line, seps.as_slice()) {
                Some(v) => v,
                None => {
                    assert(!equation_line(text@.subrange(ls[k as int].0, ls[k as int].1)));
                    return None;
                },
            };
            if v.len() < 2 {
                assert(!equation_line(text@.subrange(ls[k as int].0, ls[k as int].1)));
                return None;
            }
            let mut rest: Vec<u64> = Vec::new();
            let mut j: usize = 1;
            while j < v.len()
                invariant
                    1 <= j <= v.len(),
                    rest@ == v@.subrange(1, j as int),
                decreases v.len() - j,
            {
                rest.push(v[j]);
                j += 1;
                assert(rest@ =~= v@.subrange(1, j as int));
            }
            dataset.push((v[0], rest));
            k += 1;
        }
        proof {
            let want = equations_of(text@)->Some_0;
            assert forall|m: int| 0 <= m < dataset@.len() implies (#[trigger] dataset@[m]).0 == want[m].0
                && dataset@[m].1@ == want[m].1 by {}
        }
        Some(Solution { dataset, answer_part_one: 0, answer_part_two: 0 })
    }

    /// Adds to part one the test values that `+` and `*` can make; false,
    /// with nothing added, where a value on the way or the sum does not fit
    /// in 64 bits.
    pub fn part_a(&mut self) -> (ok: bool)
        requires
            forall|k: int| 0 <= k < old(self).dataset@.len() ==> (#[trigger] old(self).dataset@[k]).1@.len() >= 1,
        ensures
            ok <==> all_fit_upto(old(self).dataset@, old(self).dataset@.len() as int, false)
                && old(self).answer_part_one + calibration_upto(old(self).dataset@, old(self).dataset@.len() as int, false) <= u64::MAX,
            ok ==> final(self).answer_part_one == old(self).answer_part_one
                + calibration_upto(old(self).dataset@, old(self).dataset@.len() as int, false),
            !ok ==> final(self).answer_part_one == old(self).answer_part_one,
            final(self).answer_part_two == old(self).answer_part_two,
            final(self).dataset@ == old(self).dataset@,
    {
        match self.calibrate(false) {
            Some(v) => {
                self.answer_part_one = v;
                true
            },
            None => false,
        }
    }

    /// Adds to part two the test values that `+`, `*` and concatenation can
    /// make; false, with nothing added, where a value on the way or the sum
    /// does not fit in 64 bits.
    pub fn part_b(&mut self) -> (ok: bool)
        requires
            forall|k: int| 0 <= k < old(self).dataset@.len() ==> (#[trigger] old(self).dataset@[k]).1@.len() >= 1,
        ensures
            ok <==> all_fit_upto(old(self).dataset@, old(self).dataset@.len() as int, true)
                && old(self).answer_part_two + calibration_upto(old(self).dataset@, old(self).dataset@.len() as int, true) <= u64::MAX,
            ok ==> final(self).answer_part_two == old(self).answer_part_two
                + calibration_upto(old(self).dataset@, old(self).dataset@.len() as int, true),
            !ok ==> final(self).answer_part_two == old(self).answer_part_two,
            final(self).answer_part_one == old(self).answer_part_one,
            final(self).dataset@ == old(self).dataset@,
    {
        match self.calibrate(true) {
            Some(v) => {
                self.answer_part_two = v;
                true
            },
            None => false,
        }
    }

    /// Every value the numbers make under any bracketing with `+` and `*`
    /// (not only from left to right); `None` where a value met on the way
    /// leaves 64 bits.
    pub fn naive_get_all_possible_answer(&self, component: &[u64]) -> (r: Option<HashSet<u64>>)
        ensures
            r is Some <==> bracketing_fits(component@),
            r matches Some(set) ==> forall|x: u64| #[trigger] set@.contains(x) <==> bracketed(component@).contains(x as int),
    {
        let list = match bracketed_list(component) {
            Some(l) => l,
            None => return None,
        };
        let mut set: HashSet<u64> = HashSet::new();
        let mut k: usize = 0;
        while k < list.len()
            invariant
                k <= list.len(),
                forall|x: u64| #[trigger] set@.contains(x) <==> exists|m: int| 0 <= m < k && list@[m] == x,
            decreases list.len() - k,
        {
            set.insert(list[k]);
            proof {
                assert forall|x: u64| #[trigger] set@.contains(x) <==> exists|m: int| 0 <= m < k + 1 && list@[m] == x by {
                    if x == list@[k as int] {
                        assert(list@[k as int] == x);
                    }
                }
            }
            k += 1;
        }
        proof {
            assert forall|x: u64| #[trigger] set@.contains(x) <==> bracketed(component@).contains(x as int) by {
                if bracketed(component@).contains(x as int) {
                    assert(values(list@).contains(x as int));
                    let m = choose|m: int| 0 <= m < list@.len() && list@[m] as int == x as int;
                    assert(list@[m] == x);
                }
                if set@.contains(x) {
                    let m = choose|m: int| 0 <= m < list@.len() && list@[m] == x;
                    assert(values(list@).contains(x as int));
                }
            }
        }
        Some(set)
    }

    fn calibrate(&self, cat: bool) -> (r: Option<u64>)
        requires
            forall|k: int| 0 <= k < self.dataset@.len() ==> (#[trigger] self.dataset@[k]).1@.len() >= 1,
        ensures
            r is Some <==> all_fit_upto(self.dataset@, self.dataset@.len() as int, cat)
                && (if cat { self.answer_part_two } else { self.answer_part_one })
                + calibration_upto(self.dataset@, self.dataset@.len() as int, cat) <= u64::MAX,
            r matches Some(v) ==> v == (if cat { self.answer_part_two } else { self.answer_part_one })
                + calibration_upto(self.dataset@, self.dataset@.len() as int, cat),
    {
        let ghost base: int = if cat { self.answer_part_two as int } else { self.answer_part_one as int };
        let mut total: u64 = if cat { self.answer_part_two } else { self.answer_part_one };
        let mut k: usize = 0;
        while k < self.dataset.len()
            invariant
                k <= self.dataset.len(),
                forall|m: int| 0 <= m < self.dataset@.len() ==> (#[trigger] self.dataset@[m]).1@.len() >= 1,
                base == if cat { self.answer_part_two as int } else { self.answer_part_one as int },
                all_fit_upto(self.dataset@, k as int, cat),
                total == base + calibration_upto(self.dataset@, k as int, cat),
            decreases self.dataset.len() - k,
        {
            let answer = self.dataset[k].0;
            let component = self.dataset[k].1.as_slice();
            assert(self.dataset@[k as int].1@.len() >= 1);
            let mut result_set: HashSet<u64> = HashSet::new();
            let ok = if cat {
                self.strict_add_or_mul_or_concat_from_left_to_right(component, component[0], 1, &mut result_set)
            } else {
                self.strict_add_or_mul_from_left_to_right(component, component[0], 1, &mut result_set)
            };
            if !ok {
                return None;
            }
            proof {
                lemma_calibration_monotone(self.dataset@, k + 1, self.dataset@.len() as int, cat);
                lemma_results_fit(component@, component@[0] as int, 1, cat);
            }
            if result_set.contains(&answer) {
                assert(solvable(answer, self.dataset@[k as int].1@, cat));
                total = match total.checked_add(answer) {
                    Some(t) => t,
                    None => {
                        return None;
                    },
                };
            } else {
                assert(!results(component@, component@[0] as int, 1, cat).contains(answer as int));
            }
            k += 1;
        }
        Some(total)
    }

    /// Adds to `result_set` every value that `component[cur_idx..]` makes
    /// from `prev_res` with `+` and `*`; false where a value on the way does
    /// not fit in 64 bits.
    pub fn strict_add_or_mul_from_left_to_right(
        &self,
        component: &[u64],
        prev_res: u64,
        cur_idx: usize,
        result_set: &mut HashSet<u64>,
    ) -> (ok: bool)
        requires
            cur_idx <= component.len(),
        ensures
            ok == fits(component@, prev_res as int, cur_idx as int, false),
            ok ==> forall|x: u64| #[trigger] final(result_set)@.contains(x) <==> (old(result_set)@.contains(x)
                || results(component@, prev_res as int, cur_idx as int, false).contains(x as int)),
        decreases component.len() - cur_idx,
    {
        search(component, prev_res, cur_idx, false, result_set)
    }

    /// As `strict_add_or_mul_from_left_to_right`, with concatenation of
    /// digits as a third operator.
    pub fn strict_add_or_mul_or_concat_from_left_to_right(
        &self,
        component: &[u64],
        prev_res: u64,
        cur_idx: usize,
        result_set: &mut HashSet<u64>,
    ) -> (ok: bool)
        requires
            cur_idx <= component.len(),
        ensures
            ok == fits(component@, prev_res as int, cur_idx as int, true),
            ok ==> forall|x: u64| #[trigger] final(result_set)@.contains(x) <==> (old(result_set)@.contains(x)
                || results(component@, prev_res as int, cur_idx as int, true).contains(x as int)),
    {
        search(component, prev_res, cur_idx, true, result_set)
    }
}

proof fn lemma_results_fit(c: Seq<u64>, prev: int, i: int, cat: bool)
    requires
        fits(c, prev, i, cat),
    ensures
        forall|x: int| #[trigger] results(c, prev, i, cat).contains(x) ==> 0 <= x <= u64::MAX,
    decreases c.len() - i,
{
    if 0 <= i < c.len() {
        lemma_results_fit(c, prev + c[i], i + 1, cat);
        lemma_results_fit(c, prev * c[i], i + 1, cat);
        if cat {
            lemma_results_fit(c, concat(prev, c[i] as int), i + 1, cat);
        }
        let r1 = results(c, prev + c[i], i + 1, cat);
        let r2 = results(c, prev * c[i], i + 1, cat);
        let r3 = results(c, concat(prev, c[i] as int), i + 1, cat);
        assert forall|x: int| #[trigger] results(c, prev, i, cat).contains(x) implies 0 <= x <= u64::MAX by {
            if cat {
                assert(results(c, prev, i, cat) == r1.union(r2).union(r3));
                assert(r1.contains(x) || r2.contains(x) || r3.contains(x));
            } else {
                assert(results(c, prev, i, cat) == r1.union(r2));
                assert(r1.contains(x) || r2.contains(x));
            }
        }
    } else {
        assert forall|x: int| #[trigger] results(c, prev, i, cat).contains(x) implies 0 <= x <= u64::MAX by {
            assert(results(c, prev, i, cat) == set![prev]);
        }
    }
}

fn search(component: &[u64], prev_res: u64, cur_idx: usize, cat: bool, result_set: &mut HashSet<u64>) -> (ok: bool)
    requires
        cur_idx <= component.len(),
    ensures
        ok == fits(component@, prev_res as int, cur_idx as int, cat),
        ok ==> forall|x: u64| #[trigger] final(result_set)@.contains(x) <==> (old(result_set)@.contains(x)
            || results(component@, prev_res as int, cur_idx as int, cat).contains(x as int)),
    decreases component.len() - cur_idx,
{
    let ghost c = component@;
    if cur_idx == component.len() {
        result_set.insert(prev_res);
        return true;
    }
    let v = component[cur_idx];
    let sum = match prev_res.checked_add(v) {
        Some(s) => s,
        None => {
            assert(!fits(c, prev_res + v, cur_idx + 1, cat));
            return false;
        },
    };
    if !search(component, sum, cur_idx + 1, cat, result_set) {
        return false;
    }
    let prod = match prev_res.checked_mul(v) {
        Some(p) => p,
        None => {
            assert(!fits(c, prev_res * v, cur_idx + 1, cat));
            return false;
        },
    };
    if !search(component, prod, cur_idx + 1, cat, result_set) {
        return false;
    }
    if cat {
        let joined = match concat_number(prev_res, v) {
            Some(j) => j,
            None => {
                assert(!fits(c, concat(prev_res as int, v as int), cur_idx + 1, cat));
                return false;
            },
        };
        if !search(component, joined, cur_idx + 1, cat, result_set) {
            return false;
        }
    }
    true
}

} // verus!
