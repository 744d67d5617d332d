//! Recognisers for the instructions hidden in a corrupted memory dump:
//! `mul(`, `do()`, `don't()` and decimal operands.
use vstd::prelude::*;

verus! {

pub open spec fn is_ascii_digit(c: u8) -> bool {
    48 <= c <= 57
}

/// Whether `word` occurs in `file` at position `idx`.
pub open spec fn word_at(file: Seq<u8>, idx: int, word: Seq<u8>) -> bool {
    0 <= idx && idx + word.len() <= file.len() && file.subrange(idx, idx + word.len()) == word
}

pub open spec fn mul_word() -> Seq<u8> {
    seq![109u8, 117u8, 108u8, 40u8]
}

pub open spec fn dont_word() -> Seq<u8> {
    seq![100u8, 111u8, 110u8, 39u8, 116u8, 40u8, 41u8]
}

pub open spec fn do_word() -> Seq<u8> {
    seq![100u8, 111u8, 40u8, 41u8]
}

/// End of the run of ASCII digits that starts at `i`.
pub open spec fn digits_end(s: Seq<u8>, i: int) -> int
    decreases s.len() - i,
{
    if 0 <= i < s.len() && is_ascii_digit(s[i]) {
        digits_end(s, i + 1)
    } else {
        i
    }
}

/// The decimal value of the digits `s[i..j]`.
pub open spec fn decimal_value(s: Seq<u8>, i: int, j: int) -> int
    decreases j - i,
{
    if j <= i {
        0
    } else {
        decimal_value(s, i, j - 1) * 10 + (s[j - 1] - 48)
    }
}

proof fn lemma_digits_end_bounds(s: Seq<u8>, i: int)
    requires
        0 <= i <= s.len(),
    ensures
        i <= digits_end(s, i) <= s.len(),
        forall|k: int| i <= k < digits_end(s, i) ==> is_ascii_digit(#[trigger] s[k]),
    decreases s.len() - i,
{
    if i < s.len() && is_ascii_digit(s[i]) {
        lemma_digits_end_bounds(s, i + 1);
    }
}

pub proof fn lemma_decimal_value_monotone(s: Seq<u8>, i: int, j: int, k: int)
    requires
        i <= j <= k,
        forall|m: int| i <= m < k ==> is_ascii_digit(#[trigger] s[m]),
    ensures
        0 <= decimal_value(s, i, j) <= decimal_value(s, i, k),
    decreases k - i,
{
    if k > j {
        lemma_decimal_value_monotone(s, i, j, k - 1);
    } else if j > i {
        lemma_decimal_value_monotone(s, i, j - 1, j - 1);
    }
}

/// What a `mul(` at `i` contributes, and where scanning goes on: the product
/// of its two operands where `mul(a,b)` is complete, 0 where it is not, and
/// no value where an operand read does not fit in 64 bits.
pub open spec fn mul_step(s: Seq<u8>, i: int) -> (Option<int>, int) {
    if 0 <= i < s.len() && s[i] == 109 && i + 4 < s.len() && word_at(s, i, mul_word()) {
        let j = digits_end(s, i + 4);
        let n1 = decimal_value(s, i + 4, j);
        if n1 > u64::MAX {
            (None, j + 1)
        } else if j < s.len() && s[j] == 44 {
            let k = digits_end(s, j + 1);
            let n2 = decimal_value(s, j + 1, k);
            if n2 > u64::MAX {
                (None, k + 1)
            } else if k < s.len() && s[k] == 41 {
                (Some(n1 * n2), k + 1)
            } else {
                (Some(0), k + 1)
            }
        } else {
            (Some(0), j + 1)
        }
    } else {
        (Some(0), i + 1)
    }
}

/// Position and state after the `do()` / `don't()` switches at `i`.
pub open spec fn toggle_step(s: Seq<u8>, i: int, on: bool) -> (int, bool) {
    if 0 <= i < s.len() && s[i] == 100 {
        if i + 7 < s.len() && word_at(s, i, dont_word()) {
            (i + 7, false)
        } else if i + 4 < s.len() && word_at(s, i, do_word()) {
            (i + 4, true)
        } else {
            (i, on)
        }
    } else {
        (i, on)
    }
}

proof fn lemma_mul_step_advances(s: Seq<u8>, i: int)
    requires
        0 <= i,
    ensures
        mul_step(s, i).1 > i,
        i < s.len() ==> mul_step(s, i).1 <= s.len() + 1,
{
    if 0 <= i < s.len() && s[i] == 109 && i + 4 < s.len() && word_at(s, i, mul_word()) {
        lemma_digits_end_bounds(s, i + 4);
        let j = digits_end(s, i + 4);
        if j < s.len() && s[j] == 44 {
            lemma_digits_end_bounds(s, j + 1);
        }
    }
}

#[via_fn]
proof fn mul_total_from_decreases(s: Seq<u8>, i: int, with_ops: bool, on: bool) {
    if 0 <= i < s.len() {
        let (j, on2) = if with_ops { toggle_step(s, i, on) } else { (i, on) };
        lemma_mul_step_advances(s, j);
    }
}

/// Sum of the products of the complete `mul(a,b)` instructions from `i`
/// on; with `with_ops`, only those that `do()` / `don't()` leave enabled,
/// starting enabled where `on`. No value where an operand does not fit in
/// 64 bits.
pub open spec fn mul_total_from(s: Seq<u8>, i: int, with_ops: bool, on: bool) -> Option<int>
    decreases s.len() + 1 - i via mul_total_from_decreases
{
    if i < 0 || i >= s.len() {
        Some(0)
    } else {
        let (j, on2) = if with_ops { toggle_step(s, i, on) } else { (i, on) };
        if j >= s.len() {
            Some(0)
        } else if on2 {
            match mul_step(s, j).0 {
                None => None,
                Some(g) => match mul_total_from(s, mul_step(s, j).1, with_ops, on2) {
                    None => None,
                    Some(rest) => Some(g + rest),
                },
            }
        } else {
            mul_total_from(s, j + 1, with_ops, on2)
        }
    }
}

/// The 64-bit answer for a total: the total where it has a value that fits.
pub open spec fn fitting(t: Option<int>) -> Option<u64> {
    match t {
        Some(x) => if 0 <= x <= u64::MAX { Some(x as u64) } else { None },
        None => None,
    }
}

proof fn lemma_mul_total_nonneg(s: Seq<u8>, i: int, with_ops: bool, on: bool)
    ensures
        mul_total_from(s, i, with_ops, on) matches Some(x) ==> x >= 0,
    decreases s.len() + 1 - i,
{
    if 0 <= i < s.len() {
        let (j, on2) = if with_ops { toggle_step(s, i, on) } else { (i, on) };
        lemma_mul_step_advances(s, j);
        if j < s.len() {
            if on2 {
                lemma_mul_total_nonneg(s, mul_step(s, j).1, with_ops, on2);
                let j1 = digits_end(s, j + 4);
                if 0 <= j && s[j] == 109 && j + 4 < s.len() && word_at(s, j, mul_word()) {
                    lemma_digits_end_bounds(s, j + 4);
                    lemma_decimal_value_monotone(s, j + 4, j + 4, j1);
                    if j1 < s.len() && s[j1] == 44 {
                        let k = digits_end(s, j1 + 1);
                        lemma_digits_end_bounds(s, j1 + 1);
                        lemma_decimal_value_monotone(s, j1 + 1, j1 + 1, k);
                        let n1 = decimal_value(s, j + 4, j1);
                        let n2 = decimal_value(s, j1 + 1, k);
                        assert(n1 * n2 >= 0) by (nonlinear_arith)
                            requires
                                n1 >= 0,
                                n2 >= 0,
                        ;
                    }
                }
            } else {
                lemma_mul_total_nonneg(s, j + 1, with_ops, on2);
            }
        }
    }
}

/// Byte-wise comparison of `file[idx..idx + word.len()]` with `word`.
fn matches_at(file: &[u8], idx: usize, word: &[u8]) -> (r: bool)
    ensures
        r == word_at(file@, idx as int, word@),
{
    if idx > file.len() || file.len() - idx < word.len() {
        return false;
    }
    let mut k: usize = 0;
    while k < word.len()
        invariant
            idx + word.len() <= file.len(),
            k <= word.len(),
            forall|m: int| 0 <= m < k ==> file@[idx + m] == #[trigger] word@[m],
        decreases word.len() - k,
    {
        if file[idx + k] != word[k] {
            assert(file@.subrange(idx as int, idx + word.len())[k as int] != word@[k as int]);
            return false;
        }
        k += 1;
    }
    assert(file@.subrange(idx as int, idx + word.len()) =~= word@);
    true
}

pub struct Solution;

impl Solution {
    /// Whether `mul(` starts at `idx`.
    pub fn check_mul(file: &[u8], idx: usize) -> (r: bool)
        ensures
            r == word_at(file@, idx as int, mul_word()),
    {
        let word: [u8; 4] = [109u8, 117u8, 108u8, 40u8];
        assert(word@ =~= mul_word());
        matches_at(file, idx, word.as_slice())
    }

    /// Whether `don't()` starts at `idx`.
    pub fn check_dont(file: &[u8], idx: usize) -> (r: bool)
        ensures
            r == word_at(file@, idx as int, dont_word()),
    {
        let word: [u8; 7] = [100u8, 111u8, 110u8, 39u8, 116u8, 40u8, 41u8];
        assert(word@ =~= dont_word());
        matches_at(file, idx, word.as_slice())
    }

    /// Whether `do()` starts at `idx`.
    pub fn check_do(file: &[u8], idx: usize) -> (r: bool)
        ensures
            r == word_at(file@, idx as int, do_word()),
    {
        let word: [u8; 4] = [100u8, 111u8, 40u8, 41u8];
        assert(word@ =~= do_word());
        matches_at(file, idx, word.as_slice())
    }

    /// Reads the decimal number that starts at `*idx` and moves `*idx` past
    /// its digits. The value is `None` where it does not fit in 64 bits.
    pub fn get_number(file: &[u8], idx: &mut usize) -> (r: Option<u64>)
        requires
            *old(idx) <= file.len(),
        ensures
            *final(idx) == digits_end(file@, *old(idx) as int),
            r is Some <==> decimal_value(file@, *old(idx) as int, *final(idx) as int) <= u64::MAX,
            r matches Some(v) ==> v == decimal_value(file@, *old(idx) as int, *final(idx) as int),
    {
        let ghost start = *idx as int;
        proof {
            lemma_digits_end_bounds(file@, start);
        }
        let mut value: u64 = 0;
        let mut fits = true;
        while *idx < file.len() && 48 <= file[*idx] && file[*idx] <= 57
            invariant
                start <= *idx <= digits_end(file@, start) <= file.len(),
                digits_end(file@, *idx as int) == digits_end(file@, start),
                forall|k: int| start <= k < digits_end(file@, start) ==> is_ascii_digit(#[trigger] file@[k]),
                fits ==> value == decimal_value(file@, start, *idx as int),
                !fits ==> decimal_value(file@, start, *idx as int) > u64::MAX,
            decreases file.len() - *idx,
        {
            let d = (file[*idx] - 48) as u64;
            proof {
                lemma_decimal_value_monotone(file@, start, *idx as int, *idx + 1);
                lemma_digits_end_bounds(file@, *idx + 1);
            }
            if fits {
                match value.checked_mul(10) {
                    Some(t) => match t.checked_add(d) {
                        Some(v) => {
                            value = v;
                        },
                        None => {
                            fits = false;
                        },
                    },
                    None => {
                        fits = false;
                    },
                }
            }
            *idx += 1;
        }
        if fits {
            Some(value)
        } else {
            None
        }
    }

    /// Sum of the products of the complete `mul(a,b)` instructions in a
    /// memory dump; `None` where an operand or the sum does not fit in 64
    /// bits.
    pub fn get_answer(buffer: &[u8]) -> (r: Option<u64>)
        ensures
            r == fitting(mul_total_from(buffer@, 0, false, true)),
    {
        mul_total(buffer, false)
    }

    /// As `get_answer`, counting only the instructions that the latest
    /// `do()` or `don't()` before them leaves enabled.
    pub fn get_answer_with_ops(buffer: &[u8]) -> (r: Option<u64>)
        ensures
            r == fitting(mul_total_from(buffer@, 0, true, true)),
    {
        mul_total(buffer, true)
    }
}

pub open spec fn add_to(r: int, t: Option<int>) -> Option<int> {
    match t {
        Some(x) => Some(r + x),
        None => None,
    }
}

fn mul_total(buffer: &[u8], with_ops: bool) -> (r: Option<u64>)
    ensures
        r == fitting(mul_total_from(buffer@, 0, with_ops, true)),
{
    let ghost s = buffer@;
    let ghost total = mul_total_from(s, 0, with_ops, true);
    let n = buffer.len();
    let mut index: usize = 0;
    let mut ret: u64 = 0;
    let mut is_do = true;
    while index < n
        invariant
            n == s.len(),
            s == buffer@,
            total == mul_total_from(s, 0, with_ops, true),
            index <= n + 1,
            total == add_to(ret as int, mul_total_from(s, index as int, with_ops, is_do)),
        decreases n + 1 - index,
    {
        let ghost i = index as int;
        let ghost on = is_do;
        if with_ops && buffer[index] == 100 {
            if 7 < n - index && Solution::check_dont(buffer, index) {
                index += 7;
                is_do = false;
            } else if 4 < n - index && Solution::check_do(buffer, index) {
                index += 4;
                is_do = true;
            }
        }
        assert((index as int, is_do) == (if with_ops { toggle_step(s, i, on) } else { (i, on) }));
        if index >= n {
            return Some(ret);
        }
        let ghost j = index as int;
        proof {
            lemma_mul_step_advances(s, j);
            lemma_mul_total_nonneg(s, mul_step(s, j).1, with_ops, is_do);
        }
        if is_do && buffer[index] == 109 && 4 < n - index && Solution::check_mul(buffer, index) {
            let mut k: usize = index + 4;
            let n1 = match Solution::get_number(buffer, &mut k) {
                Some(v) => v,
                None => return None,
            };
            if k < n && buffer[k] == 44 {
                k += 1;
                let n2 = match Solution::get_number(buffer, &mut k) {
                    Some(v) => v,
                    None => return None,
                };
                if k < n && buffer[k] == 41 {
                    let prod = match n1.checked_mul(n2) {
                        Some(p) => p,
                        None => return None,
                    };
                    ret = match ret.checked_add(prod) {
                        Some(v) => v,
                        None => return None,
                    };
                }
            }
            if k >= n {
                assert(mul_total_from(s, k + 1, with_ops, is_do) == Some(0int));
                return Some(ret);
            }
            index = k + 1;
        } else {
            index += 1;
        }
    }
    Some(ret)
}

} // verus!
