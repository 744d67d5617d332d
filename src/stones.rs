//! Stones that change each time you blink: 0 becomes 1, a number with an
//! even count of digits splits into its two halves, any other is multiplied
//! by 2024.
use vstd::prelude::*;
use std::collections::HashMap;
use crate::text::{read_unsigned, unsigned_fields};

verus! {

broadcast use vstd::std_specs::hash::group_hash_axioms;

/// Number of decimal digits of `v`.
pub open spec fn ndigits(v: nat) -> nat
    decreases v,
{
    if v < 10 {
        1
    } else {
        1 + ndigits(v / 10)
    }
}

pub open spec fn pow10(n: nat) -> nat
    decreases n,
{
    if n == 0 {
        1
    } else {
        10 * pow10((n - 1) as nat)
    }
}

/// What one blink makes of a stone.
pub open spec fn blink_once(v: nat) -> Seq<nat> {
    if ndigits(v) % 2 == 0 {
        seq![v / pow10(ndigits(v) / 2), v % pow10(ndigits(v) / 2)]
    } else if v == 0 {
        seq![1]
    } else {
        seq![v * 2024]
    }
}

/// The stones that one stone becomes after `n` blinks, in order.
pub open spec fn stones_after(v: nat, n: nat) -> Seq<nat>
    decreases n,
{
    if n == 0 {
        seq![v]
    } else if blink_once(v).len() == 2 {
        stones_after(blink_once(v)[0], (n - 1) as nat) + stones_after(blink_once(v)[1], (n - 1) as nat)
    } else {
        stones_after(blink_once(v)[0], (n - 1) as nat)
    }
}

/// Every stone met on the way fits in 64 bits.
pub open spec fn fits_along(v: nat, n: nat) -> bool
    decreases n,
{
    &&& v <= u64::MAX
    &&& n > 0 ==> {
        &&& fits_along(blink_once(v)[0], (n - 1) as nat)
        &&& blink_once(v).len() == 2 ==> fits_along(blink_once(v)[1], (n - 1) as nat)
    }
}

/// Number of stones after `n` blinks, over the first `k` stones of `s`.
pub open spec fn count_upto(s: Seq<u64>, n: nat, k: int) -> int
    decreases k,
{
    if k <= 0 {
        0
    } else {
        count_upto(s, n, k - 1) + stones_after(s[k - 1] as nat, n).len()
    }
}

/// All the first `k` stones of `s` fit along `n` blinks.
pub open spec fn all_fit_upto(s: Seq<u64>, n: nat, k: int) -> bool {
    forall|i: int| 0 <= i < k ==> fits_along(#[trigger] s[i] as nat, n)
}

proof fn lemma_count_monotone(s: Seq<u64>, n: nat, i: int, j: int)
    requires
        0 <= i <= j,
    ensures
        0 <= count_upto(s, n, i) <= count_upto(s, n, j),
    decreases j,
{
    if j > i {
        lemma_count_monotone(s, n, i, j - 1);
    } else if i > 0 {
        lemma_count_monotone(s, n, i - 1, i - 1);
    }
}

proof fn lemma_ndigits_bound(v: nat, k: nat)
    requires
        k >= 1,
        v < pow10(k),
    ensures
        1 <= ndigits(v) <= k,
    decreases v,
{
    if v >= 10 {
        assert(pow10(k) == 10 * pow10((k - 1) as nat));
        if k == 1 {
            assert(pow10(0) == 1);
        } else {
            lemma_ndigits_bound(v / 10, (k - 1) as nat);
        }
    }
}

proof fn lemma_u64_digits(v: u64)
    ensures
        1 <= ndigits(v as nat) <= 20,
{
    reveal_with_fuel(pow10, 21);
    assert(pow10(20) == 100000000000000000000);
    lemma_ndigits_bound(v as nat, 20);
}

/// Number of decimal digits of `v`.
fn digit_count(v: u64) -> (r: u32)
    ensures
        r == ndigits(v as nat),
        1 <= r <= 20,
{
    proof {
        lemma_u64_digits(v);
    }
    let mut x = v;
    let mut r: u32 = 1;
    while x >= 10
        invariant
            r >= 1,
            ndigits(v as nat) <= 20,
            ndigits(v as nat) == r - 1 + ndigits(x as nat),
            ndigits(x as nat) >= 1,
        decreases x,
    {
        proof {
            lemma_u64_digits(x / 10);
        }
        x = x / 10;
        r += 1;
    }
    r
}

/// The two halves of the digits of `num`, read as numbers (leading zeros of
/// the right half drop out).
pub fn seperate_number(num: u64) -> (r: (u64, u64))
    requires
        ndigits(num as nat) % 2 == 0,
    ensures
        seq![r.0 as nat, r.1 as nat] == blink_once(num as nat),
{
    let nd = digit_count(num);
    let half = nd / 2;
    let mut p: u64 = 1;
    let mut k: u32 = 0;
    proof {
        lemma_pow10_monotone(0, 10);
        reveal_with_fuel(pow10, 11);
    }
    while k < half
        invariant
            half <= 10,
            k <= half,
            p == pow10(k as nat),
            1 <= p <= pow10(10),
            pow10(10) == 10000000000,
        decreases half - k,
    {
        proof {
            reveal_with_fuel(pow10, 11);
            lemma_pow10_monotone((k + 1) as nat, 10);
        }
        p = p * 10;
        k += 1;
    }
    assert(seq![(num / p) as nat, (num % p) as nat] =~= blink_once(num as nat));
    (num / p, num % p)
}

proof fn lemma_pow10_monotone(a: nat, b: nat)
    requires
        a <= b,
    ensures
        1 <= pow10(a) <= pow10(b),
    decreases b,
{
    if b > a {
        lemma_pow10_monotone(a, (b - 1) as nat);
    } else if a > 0 {
        lemma_pow10_monotone((a - 1) as nat, (a - 1) as nat);
    }
}

/// Per blink depth, the stone counts already worked out for `blink_time`
/// blinks in all.
pub open spec fn memo_ok(memory: Seq<HashMap<u64, u64>>, blink_time: nat) -> bool {
    &&& memory.len() == blink_time + 1
    &&& forall|d: int, v: u64| 0 <= d <= blink_time && #[trigger] memory[d]@.contains_key(v) ==> {
        &&& fits_along(v as nat, (blink_time - d) as nat)
        &&& memory[d]@[v] == stones_after(v as nat, (blink_time - d) as nat).len()
    }
}

/// Stones held as numbers.
pub struct StoneVec {
    pub origin: Vec<u64>,
}

impl StoneVec {
    /// Reads the stones: numbers separated by spaces, tabs or line breaks.
    pub fn load_file(text: &[u8]) -> (r: Option<StoneVec>)
        ensures
            r is Some <==> unsigned_fields(text@, seq![32u8, 9u8, 13u8, 10u8]) is Some,
            r matches Some(sv) ==> Some(sv.origin@) == unsigned_fields(text@, seq![32u8, 9u8, 13u8, 10u8]),
    {
        let seps: [u8; 4] = [32u8, 9u8, 13u8, 10u8];
        assert(seps@ =~= seq![32u8, 9u8, 13u8, 10u8]);
        match read_unsigned(text, seps.as_slice()) {
            Some(origin) => Some(StoneVec { origin }),
            None => None,
        }
    }

    /// Appends the stones that `num` becomes after the blinks from `depth`
    /// to `blink_time`; false where a stone on the way does not fit in 64
    /// bits.
    pub fn dfs(num: u64, depth: u16, blink_time: u16, final_vec: &mut Vec<u64>) -> (ok: bool)
        requires
            depth <= blink_time,
        ensures
            ok == fits_along(num as nat, (blink_time - depth) as nat),
            ok ==> final(final_vec)@.map_values(|x: u64| x as nat)
                == old(final_vec)@.map_values(|x: u64| x as nat) + stones_after(num as nat, (blink_time - depth) as nat),
        decreases blink_time - depth,
    {
        let ghost n = (blink_time - depth) as nat;
        if depth == blink_time {
            final_vec.push(num);
            assert(final_vec@.map_values(|x: u64| x as nat) =~= old(final_vec)@.map_values(|x: u64| x as nat)
                + stones_after(num as nat, n));
            return true;
        }
        let nd = digit_count(num);
        if nd % 2 == 0 {
            let (left, right) = seperate_number(num);
            assert(blink_once(num as nat)[0] == left as nat && blink_once(num as nat)[1] == right as nat);
            if !StoneVec::dfs(left, depth + 1, blink_time, final_vec) {
                return false;
            }
            let ghost after_left = final_vec@;
            let ok = StoneVec::dfs(right, depth + 1, blink_time, final_vec);
            assert(ok ==> final_vec@.map_values(|x: u64| x as nat) =~= old(final_vec)@.map_values(|x: u64| x as nat)
                + stones_after(num as nat, n));
            ok
        } else if num == 0 {
            StoneVec::dfs(1, depth + 1, blink_time, final_vec)
        } else {
            match num.checked_mul(2024) {
                Some(next) => StoneVec::dfs(next, depth + 1, blink_time, final_vec),
                    None => {
                    assert(blink_once(num as nat)[0] == num * 2024);
                    assert(!fits_along((num as nat) * 2024, (n - 1) as nat));
                    false
                },
            }
        }
    }

    /// Number of stones after `blink_time` blinks, found by listing them;
    /// `None` where a stone on the way or the count does not fit.
    pub fn blink(&self, blink_time: u16) -> (r: Option<usize>)
        ensures
            r == if all_fit_upto(self.origin@, blink_time as nat, self.origin@.len() as int)
                && count_upto(self.origin@, blink_time as nat, self.origin@.len() as int) <= usize::MAX {
                Some(count_upto(self.origin@, blink_time as nat, self.origin@.len() as int) as usize)
            } else {
                None::<usize>
            },
    {
        let mut ret: usize = 0;
        let mut k: usize = 0;
        while k < self.origin.len()
            invariant
                k <= self.origin.len(),
                all_fit_upto(self.origin@, blink_time as nat, k as int),
                ret == count_upto(self.origin@, blink_time as nat, k as int),
            decreases self.origin.len() - k,
        {
            let mut final_vec: Vec<u64> = Vec::new();
            let ok = StoneVec::dfs(self.origin[k], 0, blink_time, &mut final_vec);
            if !ok {
                return None;
            }
            proof {
                lemma_count_monotone(self.origin@, blink_time as nat, k + 1, self.origin@.len() as int);
                assert(final_vec@.map_values(|x: u64| x as nat).len() == final_vec@.len());
            }
            ret = match ret.checked_add(final_vec.len()) {
                Some(v) => v,
                None => {
                    return None;
                },
            };
            k += 1;
        }
        Some(ret)
    }

    /// Number of stones that `num` becomes after the blinks from `depth` to
    /// `blink_time`, remembering each count per depth; `None` where a stone
    /// on the way or the count does not fit in 64 bits.
    pub fn dfs_with_memory(num: u64, depth: u16, blink_time: u16, memory_dict: &mut Vec<HashMap<u64, u64>>) -> (r: Option<u64>)
        requires
            depth <= blink_time,
            memo_ok(old(memory_dict)@, blink_time as nat),
        ensures
            memo_ok(final(memory_dict)@, blink_time as nat),
            r == if fits_along(num as nat, (blink_time - depth) as nat)
                && stones_after(num as nat, (blink_time - depth) as nat).len() <= u64::MAX {
                Some(stones_after(num as nat, (blink_time - depth) as nat).len() as u64)
            } else {
                None::<u64>
            },
        decreases blink_time - depth,
    {
        let ghost n = (blink_time - depth) as nat;
        let d = depth as usize;
        match memory_dict[d].get(&num) {
            Some(c) => {
                return Some(*c);
            },
            None => {},
        }
        if depth == blink_time {
            return Some(1);
        }
        let nd = digit_count(num);
        let ret: u64 = if nd % 2 == 0 {
            let (left, right) = seperate_number(num);
            assert(blink_once(num as nat)[0] == left as nat && blink_once(num as nat)[1] == right as nat);
            let a = match StoneVec::dfs_with_memory(left, depth + 1, blink_time, memory_dict) {
                Some(a) => a,
                None => {
                    return None;
                },
            };
            let b = match StoneVec::dfs_with_memory(right, depth + 1, blink_time, memory_dict) {
                Some(b) => b,
                None => {
                    return None;
                },
            };
            match a.checked_add(b) {
                Some(c) => c,
                None => {
                    return None;
                },
            }
        } else if num == 0 {
            match StoneVec::dfs_with_memory(1, depth + 1, blink_time, memory_dict) {
                Some(c) => c,
                None => {
                    return None;
                },
            }
        } else {
            match num.checked_mul(2024) {
                Some(next) => match StoneVec::dfs_with_memory(next, depth + 1, blink_time, memory_dict) {
                    Some(c) => c,
                    None => {
                        return None;
                    },
                },
                None => {
                    assert(blink_once(num as nat)[0] == num * 2024);
                    assert(!fits_along((num as nat) * 2024, (n - 1) as nat));
                    return None;
                },
            }
        };
        let ghost before = memory_dict@;
        let mut level = memory_dict.remove(d);
        level.insert(num, ret);
        memory_dict.insert(d, level);
        proof {
            assert(memory_dict@ =~= before.update(d as int, memory_dict@[d as int]));
            assert forall|dd: int, v: u64| 0 <= dd <= blink_time && #[trigger] memory_dict@[dd]@.contains_key(v) implies {
                &&& fits_along(v as nat, (blink_time - dd) as nat)
                &&& memory_dict@[dd]@[v] == stones_after(v as nat, (blink_time - dd) as nat).len()
            } by {
                if dd != d {
                    assert(memory_dict@[dd] == before[dd]);
                } else if v != num {
                    assert(before[dd]@.contains_key(v));
                }
            }
        }
        Some(ret)
    }

    /// Number of stones after `blink_time` blinks, counted with a memory of
    /// counts per depth; `None` where a stone on the way or the count does
    /// not fit in 64 bits.
    pub fn blink_alter(&self, blink_time: u16) -> (r: Option<u64>)
        ensures
            r == if all_fit_upto(self.origin@, blink_time as nat, self.origin@.len() as int)
                && count_upto(self.origin@, blink_time as nat, self.origin@.len() as int) <= u64::MAX {
                Some(count_upto(self.origin@, blink_time as nat, self.origin@.len() as int) as u64)
            } else {
                None::<u64>
            },
    {
        let mut memory_dict: Vec<HashMap<u64, u64>> = Vec::new();
        let levels: usize = blink_time as usize + 1;
        while memory_dict.len() < levels
            invariant
                levels == blink_time + 1,
                memory_dict@.len() <= levels,
                forall|i: int| 0 <= i < memory_dict@.len() ==> (#[trigger] memory_dict@[i])@ == Map::<u64, u64>::empty(),
            decreases levels - memory_dict@.len(),
        {
            memory_dict.push(HashMap::new());
        }
        let mut count: u64 = 0;
        let mut k: usize = 0;
        while k < self.origin.len()
            invariant
                k <= self.origin.len(),
                memo_ok(memory_dict@, blink_time as nat),
                all_fit_upto(self.origin@, blink_time as nat, k as int),
                count == count_upto(self.origin@, blink_time as nat, k as int),
            decreases self.origin.len() - k,
        {
            proof {
                lemma_count_monotone(self.origin@, blink_time as nat, k + 1, self.origin@.len() as int);
            }
            let c = match StoneVec::dfs_with_memory(self.origin[k], 0, blink_time, &mut memory_dict) {
                Some(c) => c,
                None => {
                    return None;
                },
            };
            count = match count.checked_add(c) {
                Some(v) => v,
                None => {
                    return None;
                },
            };
            k += 1;
        }
        Some(count)
    }
}

} // verus!
