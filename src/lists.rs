//! Two columns of location ids: their pairwise distance and their similarity.
use vstd::prelude::*;
use crate::text::{blanks, fields, lines_of, read_unsigned, unsigned_fields};

verus! {

pub open spec fn abs_diff(a: u32, b: u32) -> int {
    if a >= b {
        a - b
    } else {
        b - a
    }
}

/// Sum of `|left[i] - right[i]|` over the first `n` pairs.
pub open spec fn distance_upto(left: Seq<u32>, right: Seq<u32>, n: int) -> int
    decreases n,
{
    if n <= 0 {
        0
    } else {
        distance_upto(left, right, n - 1) + abs_diff(left[n - 1], right[n - 1])
    }
}

/// Sum of the distances of the pairs that both columns have.
pub open spec fn distance(left: Seq<u32>, right: Seq<u32>) -> int {
    distance_upto(left, right, if left.len() <= right.len() { left.len() as int } else { right.len() as int })
}

/// How often `x` occurs among the first `n` values of `s`.
pub open spec fn count_upto(s: Seq<u32>, x: u32, n: int) -> int
    decreases n,
{
    if n <= 0 {
        0
    } else {
        count_upto(s, x, n - 1) + if s[n - 1] == x { 1int } else { 0int }
    }
}

pub open spec fn count_of(s: Seq<u32>, x: u32) -> int {
    count_upto(s, x, s.len() as int)
}

/// Sum of `left[i] * (occurrences of left[i] in right)` over the first `n` values.
pub open spec fn similarity_upto(left: Seq<u32>, right: Seq<u32>, n: int) -> int
    decreases n,
{
    if n <= 0 {
        0
    } else {
        similarity_upto(left, right, n - 1) + left[n - 1] * count_of(right, left[n - 1])
    }
}

pub open spec fn similarity(left: Seq<u32>, right: Seq<u32>) -> int {
    similarity_upto(left, right, left.len() as int)
}

pub open spec fn sorted(s: Seq<u32>) -> bool {
    forall|i: int, j: int| 0 <= i < j < s.len() ==> s[i] <= s[j]
}

proof fn lemma_distance_monotone(left: Seq<u32>, right: Seq<u32>, i: int, j: int)
    requires
        0 <= i <= j,
    ensures
        0 <= distance_upto(left, right, i) <= distance_upto(left, right, j),
    decreases j,
{
    if j > i {
        lemma_distance_monotone(left, right, i, j - 1);
    } else if i > 0 {
        lemma_distance_monotone(left, right, i - 1, i - 1);
    }
}

proof fn lemma_count_bounds(s: Seq<u32>, x: u32, n: int)
    requires
        0 <= n,
    ensures
        0 <= count_upto(s, x, n) <= n,
    decreases n,
{
    if n > 0 {
        lemma_count_bounds(s, x, n - 1);
    }
}

proof fn lemma_similarity_monotone(left: Seq<u32>, right: Seq<u32>, i: int, j: int)
    requires
        0 <= i <= j,
    ensures
        0 <= similarity_upto(left, right, i) <= similarity_upto(left, right, j),
    decreases j,
{
    if j > i {
        lemma_similarity_monotone(left, right, i, j - 1);
        lemma_count_bounds(right, left[j - 1], right.len() as int);
        assert(left[j - 1] * count_of(right, left[j - 1]) >= 0) by (nonlinear_arith)
            requires
                count_of(right, left[j - 1]) >= 0,
                left[j - 1] >= 0,
        ;
    } else if i > 0 {
        lemma_similarity_monotone(left, right, i - 1, i - 1);
        lemma_count_bounds(right, left[i - 1], right.len() as int);
        assert(left[i - 1] * count_of(right, left[i - 1]) >= 0) by (nonlinear_arith)
            requires
                count_of(right, left[i - 1]) >= 0,
                left[i - 1] >= 0,
        ;
    }
}

/// Relies on `slice::sort`: afterwards the values stand in ascending order,
/// each kept as often as it occurred before.
#[verifier::external_body]
fn sort_values(v: &mut Vec<u32>)
    ensures
        final(v)@.to_multiset() == old(v)@.to_multiset(),
        sorted(final(v)@),
{
    v.sort();
}

/// How often `x` occurs in `s`.
fn count_value(s: &Vec<u32>, x: u32) -> (r: usize)
    ensures
        r == count_of(s@, x),
{
    let mut r: usize = 0;
    let mut i: usize = 0;
    while i < s.len()
        invariant
            i <= s.len(),
            r == count_upto(s@, x, i as int),
        decreases s.len() - i,
    {
        proof {
            lemma_count_bounds(s@, x, i as int);
        }
        if s[i] == x {
            r += 1;
        }
        i += 1;
    }
    r
}

/// A line holds exactly two numbers that fit in 32 bits.
pub open spec fn pair_line(line: Seq<u8>) -> bool {
    unsigned_fields(line, blanks()) matches Some(v) && v.len() == 2 && v[0] <= u32::MAX && v[1] <= u32::MAX
}

/// Number `m` (0 or 1) of a pair line.
pub open spec fn pair_value(line: Seq<u8>, m: int) -> u32 {
    (unsigned_fields(line, blanks())->Some_0)[m] as u32
}

/// The two columns that a text of pair lines gives.
pub open spec fn columns_of(text: Seq<u8>) -> Option<(Seq<u32>, Seq<u32>)> {
    let ls = lines_of(text);
    if forall|k: int| 0 <= k < ls.len() ==> #[trigger] pair_line(text.subrange(ls[k].0, ls[k].1)) {
        Some((
            Seq::new(ls.len(), |k: int| pair_value(text.subrange(ls[k].0, ls[k].1), 0)),
            Seq::new(ls.len(), |k: int| pair_value(text.subrange(ls[k].0, ls[k].1), 1)),
        ))
    } else {
        None
    }
}

/// The two columns of a location list.
pub struct List {
    pub left: Vec<u32>,
    pub right: Vec<u32>,
}

impl List {
    /// Reads a list from text: one line per pair, two numbers per line.
    pub fn init(text: &[u8]) -> (r: Option<List>)
        ensures
            r is Some <==> columns_of(text@) is Some,
            r matches Some(l) ==> columns_of(text@) == Some((l.left@, l.right@)),
    {
        let ghost ls = lines_of(text@);
        let nl: [u8; 1] = [10u8];
        assert(nl@ =~= seq![10u8]);
        let lines = fields(text, nl.as_slice());
        let ws: [u8; 3] = [32u8, 9u8, 13u8];
        assert(ws@ =~= blanks());
        let mut left: Vec<u32> = Vec::new();
        let mut right: Vec<u32> = Vec::new();
        let mut k: usize = 0;
        while k < lines.len()
            invariant
                ls == lines_of(text@),
                ws@ == blanks(),
                lines@.len() == ls.len(),
                forall|m: int| 0 <= m < lines@.len() ==> (#[trigger] lines@[m]).0 == ls[m].0 && lines@[m].1 == ls[m].1
                    && lines@[m].0 <= lines@[m].1 <= text@.len(),
                k <= lines.len(),
                left@.len() == k && right@.len() == k,
                forall|m: int| 0 <= m < k ==> #[trigger] pair_line(text@.subrange(ls[m].0, ls[m].1)),
                forall|m: int| 0 <= m < k ==> #[trigger] left@[m] == pair_value(text@.subrange(ls[m].0, ls[m].1), 0),
                forall|m: int| 0 <= m < k ==> #[trigger] right@[m] == pair_value(text@.subrange(ls[m].0, ls[m].1), 1),
            decreases lines.len() - k,
        {
            let (a, b) = lines[k];
            let line = &text[a..b];
            assert(line@ =~= text@.subrange(ls[k as int].0, ls[k as int].1));
            let v = match read_unsigned(line, ws.as_slice()) {
                Some(v) => v,
                None => {
                    assert(!pair_line(text@.subrange(ls[k as int].0, ls[k as int].1)));
                    return None;
                },
            };
            if v.len() != 2 || v[0] > u32::MAX as u64 || v[1] > u32::MAX as u64 {
                assert(!pair_line(text@.subrange(ls[k as int].0, ls[k as int].1)));
                return None;
            }
            assert(pair_line(text@.subrange(ls[k as int].0, ls[k as int].1)));
            assert(pair_value(text@.subrange(ls[k as int].0, ls[k as int].1), 0) == v@[0] as u32);
            assert(pair_value(text@.subrange(ls[k as int].0, ls[k as int].1), 1) == v@[1] as u32);
            left.push(v[0] as u32);
            right.push(v[1] as u32);
            k += 1;
        }
        assert(left@ =~= Seq::new(ls.len(), |m: int| pair_value(text@.subrange(ls[m].0, ls[m].1), 0)));
        assert(right@ =~= Seq::new(ls.len(), |m: int| pair_value(text@.subrange(ls[m].0, ls[m].1), 1)));
        Some(List { left, right })
    }

    /// Sorts both columns in ascending order.
    pub fn sort(&mut self)
        ensures
            final(self).left@.to_multiset() == old(self).left@.to_multiset(),
            final(self).right@.to_multiset() == old(self).right@.to_multiset(),
            sorted(final(self).left@),
            sorted(final(self).right@),
    {
        sort_values(&mut self.left);
        sort_values(&mut self.right);
    }

    /// Sum of the distances between the values paired by position; `None`
    /// where it does not fit in 32 bits.
    pub fn cal_distance(&self) -> (r: Option<u32>)
        ensures
            r is Some <==> distance(self.left@, self.right@) <= u32::MAX,
            r matches Some(x) ==> x == distance(self.left@, self.right@),
    {
        let n = if self.left.len() <= self.right.len() {
            self.left.len()
        } else {
            self.right.len()
        };
        let mut ret: u32 = 0;
        let mut i: usize = 0;
        while i < n
            invariant
                i <= n,
                n <= self.left.len(),
                n <= self.right.len(),
                n == if self.left@.len() <= self.right@.len() { self.left@.len() } else { self.right@.len() },
                ret == distance_upto(self.left@, self.right@, i as int),
            decreases n - i,
        {
            let a = self.left[i];
            let b = self.right[i];
            let d = if a >= b {
                a - b
            } else {
                b - a
            };
            match ret.checked_add(d) {
                Some(x) => {
                    ret = x;
                },
                None => {
                    proof {
                        lemma_distance_monotone(self.left@, self.right@, i + 1, n as int);
                    }
                    return None;
                },
            }
            i += 1;
        }
        Some(ret)
    }

    /// Sum over the left column of each value times how often it occurs in
    /// the right column; `None` where it does not fit in 32 bits.
    pub fn cal_similarity(&self) -> (r: Option<u32>)
        ensures
            r is Some <==> similarity(self.left@, self.right@) <= u32::MAX,
            r matches Some(x) ==> x == similarity(self.left@, self.right@),
    {
        let mut ret: u32 = 0;
        let mut i: usize = 0;
        while i < self.left.len()
            invariant
                i <= self.left.len(),
                ret == similarity_upto(self.left@, self.right@, i as int),
            decreases self.left.len() - i,
        {
            let x = self.left[i];
            let c = count_value(&self.right, x);
            proof {
                lemma_similarity_monotone(self.left@, self.right@, i + 1, self.left@.len() as int);
            }
            let term: u32 = if x == 0 {
                0
            } else if c > u32::MAX as usize {
                assert(x * c > u32::MAX) by (nonlinear_arith)
                    requires
                        x >= 1,
                        c > u32::MAX,
                ;
                return None;
            } else {
                match x.checked_mul(c as u32) {
                    Some(t) => t,
                    None => {
                        return None;
                    },
                }
            };
            assert(term == x * c) by (nonlinear_arith)
                requires
                    x == 0 ==> term == 0,
                    x != 0 ==> term == x * c,
            ;
            match ret.checked_add(term) {
                Some(v) => {
                    ret = v;
                },
                None => {
                    return None;
                },
            }
            i += 1;
        }
        Some(ret)
    }
}

} // verus!
