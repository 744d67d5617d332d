//! Reactor reports: a report is safe when its levels move in one direction
//! by steps of one to three.
use vstd::prelude::*;
use crate::text::{blanks, fields, lines_of, read_signed, signed_fields};

verus! {

/// The step from level `i` to level `i + 1` is one to three, in the
/// direction of the first step.
pub open spec fn step_ok(s: Seq<i32>, i: int) -> bool {
    let d = s[i + 1] - s[i];
    &&& 1 <= d || d <= -1
    &&& -3 <= d <= 3
    &&& (s[i + 1] > s[i]) == (s[1] > s[0])
}

/// A report is safe when it has fewer than two levels, or every step
/// between neighbours is one to three and goes the way the first one goes.
pub open spec fn safe(s: Seq<i32>) -> bool {
    s.len() < 2 || forall|i: int| 0 <= i < s.len() - 1 ==> #[trigger] step_ok(s, i)
}

/// Safe as it is, or safe once one level is taken out.
pub open spec fn tolerable(s: Seq<i32>) -> bool {
    safe(s) || exists|k: int| 0 <= k < s.len() && safe(#[trigger] s.remove(k))
}

/// Number of the first `n` reports that satisfy `p`.
pub open spec fn count_where(rows: Seq<Vec<i32>>, n: int, p: spec_fn(Seq<i32>) -> bool) -> int
    decreases n,
{
    if n <= 0 {
        0
    } else {
        count_where(rows, n - 1, p) + if p(rows[n - 1]@) { 1int } else { 0int }
    }
}

proof fn lemma_count_where_bounds(rows: Seq<Vec<i32>>, n: int, p: spec_fn(Seq<i32>) -> bool)
    requires
        0 <= n,
    ensures
        0 <= count_where(rows, n, p) <= n,
    decreases n,
{
    if n > 0 {
        lemma_count_where_bounds(rows, n - 1, p);
    }
}

/// A copy of `s` without the level at `k`.
fn without(s: &Vec<i32>, k: usize) -> (r: Vec<i32>)
    requires
        k < s.len(),
    ensures
        r@ == s@.remove(k as int),
{
    let mut r: Vec<i32> = Vec::new();
    let mut i: usize = 0;
    while i < s.len()
        invariant
            k < s.len(),
            i <= s.len(),
            i <= k ==> r@ == s@.subrange(0, i as int),
            i > k ==> r@ == s@.subrange(0, k as int) + s@.subrange(k + 1, i as int),
        decreases s.len() - i,
    {
        if i != k {
            r.push(s[i]);
        }
        i += 1;
        proof {
            if i <= k {
                assert(r@ =~= s@.subrange(0, i as int));
            } else {
                assert(r@ =~= s@.subrange(0, k as int) + s@.subrange(k + 1, i as int));
            }
        }
    }
    assert(r@ =~= s@.remove(k as int));
    r
}

/// The reports that a text gives: one per non-empty line, levels as
/// signed numbers separated by blanks.
pub open spec fn reports_of(text: Seq<u8>) -> Option<Seq<Seq<i32>>> {
    let ls = lines_of(text);
    if forall|k: int| 0 <= k < ls.len() ==> (#[trigger] signed_fields(text.subrange(ls[k].0, ls[k].1), blanks())) is Some {
        Some(Seq::new(ls.len(), |k: int| signed_fields(text.subrange(ls[k].0, ls[k].1), blanks())->Some_0))
    } else {
        None
    }
}

/// A set of reports and how many of them are safe.
pub struct DataSet {
    pub data_frame: Vec<Vec<i32>>,
    pub num_of_safe: u32,
}

impl DataSet {
    /// Reads the reports from text and counts the safe ones; `None` where a
    /// level is not a 32-bit number or there are more reports than a 32-bit
    /// count holds.
    pub fn init(text: &[u8]) -> (r: Option<DataSet>)
        ensures
            r is Some <==> reports_of(text@) is Some && reports_of(text@)->Some_0.len() <= u32::MAX,
            r matches Some(d) ==> {
                &&& d.data_frame@.len() == reports_of(text@)->Some_0.len()
                &&& forall|k: int| 0 <= k < d.data_frame@.len() ==> (#[trigger] d.data_frame@[k])@ == reports_of(text@)->Some_0[k]
                &&& d.num_of_safe == count_where(d.data_frame@, d.data_frame@.len() as int, |s: Seq<i32>| safe(s))
            },
    {
        let ghost ls = lines_of(text@);
        let nl: [u8; 1] = [10u8];
        assert(nl@ =~= seq![10u8]);
        let lines = fields(text, nl.as_slice());
        let ws: [u8; 3] = [32u8, 9u8, 13u8];
        assert(ws@ =~= blanks());
        let mut rows: Vec<Vec<i32>> = Vec::new();
        let mut k: usize = 0;
        while k < lines.len()
            invariant
                ls == lines_of(text@),
                ws@ == blanks(),
                lines@.len() == ls.len(),
                forall|m: int| 0 <= m < lines@.len() ==> (#[trigger] lines@[m]).0 == ls[m].0 && lines@[m].1 == ls[m].1
                    && lines@[m].0 <= lines@[m].1 <= text@.len(),
                k <= lines.len(),
                rows@.len() == k,
                forall|m: int| 0 <= m < k ==> Some((#[trigger] rows@[m])@) == signed_fields(text@.subrange(ls[m].0, ls[m].1), blanks()),
            decreases lines.len() - k,
        {
            let (a, b) = lines[k];
            let line = &text[a..b];
            assert(line@ =~= text@.subrange(ls[k as int].0, ls[k as int].1));
            match read_signed(line, ws.as_slice()) {
                Some(v) => {
                    rows.push(v);
                },
                None => {
                    return None;
                },
            }
            k += 1;
        }
        proof {
            assert forall|m: int| 0 <= m < ls.len() implies (#[trigger] signed_fields(text@.subrange(ls[m].0, ls[m].1), blanks())) is Some by {
                assert(Some(rows@[m]@) == signed_fields(text@.subrange(ls[m].0, ls[m].1), blanks()));
            }
        }
        if rows.len() > u32::MAX as usize {
            return None;
        }
        Some(DataSet::from_reports(rows))
    }

    /// Takes the reports and counts the safe ones.
    pub fn from_reports(data_frame: Vec<Vec<i32>>) -> (r: DataSet)
        requires
            data_frame@.len() <= u32::MAX,
        ensures
            r.data_frame@ == data_frame@,
            r.num_of_safe == count_where(data_frame@, data_frame@.len() as int, |s: Seq<i32>| safe(s)),
    {
        let mut num_of_safe: u32 = 0;
        let mut i: usize = 0;
        while i < data_frame.len()
            invariant
                i <= data_frame.len(),
                data_frame@.len() <= u32::MAX,
                num_of_safe == count_where(data_frame@, i as int, |s: Seq<i32>| safe(s)),
            decreases data_frame.len() - i,
        {
            proof {
                lemma_count_where_bounds(data_frame@, i as int, |s: Seq<i32>| safe(s));
            }
            if DataSet::is_safe(&data_frame[i]) {
                num_of_safe += 1;
            }
            i += 1;
        }
        DataSet { data_frame, num_of_safe }
    }

    /// Whether one report is safe.
    pub fn is_safe(nums: &Vec<i32>) -> (r: bool)
        ensures
            r == safe(nums@),
    {
        if nums.len() < 2 {
            return true;
        }
        let increasing = nums[1] > nums[0];
        let mut idx: usize = 0;
        while idx < nums.len() - 1
            invariant
                nums.len() >= 2,
                idx <= nums.len() - 1,
                increasing == (nums@[1] > nums@[0]),
                forall|i: int| 0 <= i < idx ==> #[trigger] step_ok(nums@, i),
            decreases nums.len() - idx,
        {
            let a = nums[idx] as i64;
            let b = nums[idx + 1] as i64;
            let d = b - a;
            if d == 0 || d > 3 || d < -3 || increasing != (nums[idx + 1] > nums[idx]) {
                assert(!step_ok(nums@, idx as int));
                return false;
            }
            idx += 1;
        }
        true
    }

    /// Number of reports that are safe, or become safe once a single level
    /// is taken out.
    pub fn tolerate_a_single_bad_level(&self) -> (r: u32)
        requires
            self.data_frame@.len() <= u32::MAX,
        ensures
            r == count_where(self.data_frame@, self.data_frame@.len() as int, |s: Seq<i32>| tolerable(s)),
    {
        let mut ret: u32 = 0;
        let mut i: usize = 0;
        while i < self.data_frame.len()
            invariant
                i <= self.data_frame.len(),
                self.data_frame@.len() <= u32::MAX,
                ret == count_where(self.data_frame@, i as int, |s: Seq<i32>| tolerable(s)),
            decreases self.data_frame.len() - i,
        {
            proof {
                lemma_count_where_bounds(self.data_frame@, i as int, |s: Seq<i32>| tolerable(s));
            }
            let line = &self.data_frame[i];
            let mut ok = DataSet::is_safe(line);
            let mut k: usize = 0;
            while k < line.len() && !ok
                invariant
                    k <= line.len(),
                    ok == (safe(line@) || exists|m: int| 0 <= m < k && safe(#[trigger] line@.remove(m))),
                decreases line.len() - k,
            {
                let shorter = without(line, k);
                if DataSet::is_safe(&shorter) {
                    ok = true;
                }
                k += 1;
            }
            assert(ok == tolerable(line@));
            if ok {
                ret += 1;
            }
            i += 1;
        }
        ret
    }
}

} // verus!
