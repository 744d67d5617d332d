//! Print queue updates checked against page ordering rules: an update is
//! correct when every page may precede every later page; an incorrect one
//! is reordered by swapping offending pairs.
use vstd::prelude::*;
use std::collections::HashMap;
use crate::text::{fields, lines_of, read_unsigned, unsigned_fields};

verus! {

broadcast use vstd::std_specs::hash::group_hash_axioms;

/// Page `x` may stand before page `y`.
pub open spec fn may_precede(d: Map<u32, Vec<u32>>, x: u32, y: u32) -> bool {
    d.contains_key(x) && d[x]@.contains(y)
}

/// The pass of position `i` over positions `j..`: each later page that may
/// not follow `u[i]` is swapped with it. Also tells whether no swap happened.
pub open spec fn pass_from(d: Map<u32, Vec<u32>>, u: Seq<u32>, i: int, j: int) -> (Seq<u32>, bool)
    decreases u.len() - j,
{
    if j < 0 || j >= u.len() || i < 0 || i >= u.len() {
        (u, true)
    } else {
        let ok = may_precede(d, u[i], u[j]);
        let next = if ok { u } else { u.update(i, u[j]).update(j, u[i]) };
        let rest = pass_from(d, next, i, j + 1);
        (rest.0, rest.1 && ok)
    }
}

/// The passes of positions `i..len - 1`, in order.
pub open spec fn passes_from(d: Map<u32, Vec<u32>>, u: Seq<u32>, i: int) -> (Seq<u32>, bool)
    decreases u.len() - i via passes_from_decreases
{
    if i < 0 || i + 1 >= u.len() {
        (u, true)
    } else {
        let first = pass_from(d, u, i, i + 1);
        let rest = passes_from(d, first.0, i + 1);
        (rest.0, first.1 && rest.1)
    }
}

/// An update after reordering, and whether it was correct to begin with.
pub open spec fn reorder(d: Map<u32, Vec<u32>>, u: Seq<u32>) -> (Seq<u32>, bool) {
    passes_from(d, u, 0)
}

#[via_fn]
proof fn passes_from_decreases(d: Map<u32, Vec<u32>>, u: Seq<u32>, i: int) {
    lemma_pass_len(d, u, i, i + 1);
}

proof fn lemma_pass_len(d: Map<u32, Vec<u32>>, u: Seq<u32>, i: int, j: int)
    ensures
        pass_from(d, u, i, j).0.len() == u.len(),
    decreases u.len() - j,
{
    if !(j < 0 || j >= u.len() || i < 0 || i >= u.len()) {
        let ok = may_precede(d, u[i], u[j]);
        let next = if ok { u } else { u.update(i, u[j]).update(j, u[i]) };
        lemma_pass_len(d, next, i, j + 1);
    }
}

proof fn lemma_passes_len(d: Map<u32, Vec<u32>>, u: Seq<u32>, i: int)
    ensures
        passes_from(d, u, i).0.len() == u.len(),
    decreases u.len() - i,
{
    if !(i < 0 || i + 1 >= u.len()) {
        lemma_pass_len(d, u, i, i + 1);
        lemma_passes_len(d, pass_from(d, u, i, i + 1).0, i + 1);
    }
}

/// The reordered updates among the first `n` whose correctness is `want`.
pub open spec fn sorted_out(d: Map<u32, Vec<u32>>, us: Seq<Vec<u32>>, n: int, want: bool) -> Seq<Seq<u32>>
    decreases n,
{
    if n <= 0 {
        Seq::empty()
    } else {
        let r = reorder(d, us[n - 1]@);
        if r.1 == want {
            sorted_out(d, us, n - 1, want).push(r.0)
        } else {
            sorted_out(d, us, n - 1, want)
        }
    }
}

/// The middle page of an update; 0 for an empty one.
pub open spec fn middle(u: Seq<u32>) -> int {
    if u.len() == 0 {
        0
    } else {
        u[(u.len() / 2) as int] as int
    }
}

pub open spec fn middles_upto(us: Seq<Vec<u32>>, n: int) -> int
    decreases n,
{
    if n <= 0 {
        0
    } else {
        middles_upto(us, n - 1) + middle(us[n - 1]@)
    }
}

proof fn lemma_middles_monotone(us: Seq<Vec<u32>>, i: int, j: int)
    requires
        0 <= i <= j,
    ensures
        0 <= middles_upto(us, i) <= middles_upto(us, j),
    decreases j,
{
    if j > i {
        lemma_middles_monotone(us, i, j - 1);
    } else if i > 0 {
        lemma_middles_monotone(us, i - 1, i - 1);
    }
}

/// Separators of a rule line `a|b`.
pub open spec fn rule_seps() -> Seq<u8> {
    seq![124u8, 32u8, 9u8, 13u8]
}

/// Separators of an update line `a,b,c`.
pub open spec fn update_seps() -> Seq<u8> {
    seq![44u8, 32u8, 9u8, 13u8]
}

/// The numbers of a line, where all fit in 32 bits.
pub open spec fn u32_fields(line: Seq<u8>, seps: Seq<u8>) -> Option<Seq<u32>> {
    match unsigned_fields(line, seps) {
        Some(v) => if forall|k: int| 0 <= k < v.len() ==> #[trigger] v[k] <= u32::MAX {
            Some(v.map_values(|x: u64| x as u32))
        } else {
            None
        },
        None => None,
    }
}

/// Line `k` of `text` as bytes.
pub open spec fn line_at(text: Seq<u8>, k: int) -> Seq<u8> {
    text.subrange(lines_of(text)[k].0, lines_of(text)[k].1)
}

/// The line is a rule (it holds a `|`) with exactly two numbers.
pub open spec fn rule_line(line: Seq<u8>) -> bool {
    line.contains(124u8) && (u32_fields(line, rule_seps()) matches Some(v) && v.len() == 2)
}

/// The line is an update (it holds a `,` and no `|`).
pub open spec fn update_line(line: Seq<u8>) -> bool {
    !line.contains(124u8) && line.contains(44u8)
}

/// Every rule line and every update line of the text reads well.
pub open spec fn queue_text_ok(text: Seq<u8>) -> bool {
    forall|k: int| 0 <= k < lines_of(text).len() ==> {
        &&& (#[trigger] line_at(text, k)).contains(124u8) ==> rule_line(line_at(text, k))
        &&& update_line(line_at(text, k)) ==> u32_fields(line_at(text, k), update_seps()) is Some
    }
}

/// Rule `x|y` is on one of the first `n` lines.
pub open spec fn rule_upto(text: Seq<u8>, n: int, x: u32, y: u32) -> bool {
    exists|k: int| 0 <= k < n && rule_line(#[trigger] line_at(text, k))
        && u32_fields(line_at(text, k), rule_seps())->Some_0 == seq![x, y]
}

/// The updates on the first `n` lines, in order.
pub open spec fn updates_upto(text: Seq<u8>, n: int) -> Seq<Seq<u32>>
    decreases n,
{
    if n <= 0 {
        Seq::empty()
    } else if update_line(line_at(text, n - 1)) {
        updates_upto(text, n - 1).push(u32_fields(line_at(text, n - 1), update_seps())->Some_0)
    } else {
        updates_upto(text, n - 1)
    }
}

proof fn lemma_no_rule_line(text: Seq<u8>, k: int, d: Map<u32, Vec<u32>>)
    requires
        0 <= k,
        !rule_line(line_at(text, k)),
        forall|x: u32, y: u32| #[trigger] may_precede(d, x, y) <==> rule_upto(text, k, x, y),
    ensures
        forall|x: u32, y: u32| #[trigger] may_precede(d, x, y) <==> rule_upto(text, k + 1, x, y),
{
    assert forall|p: u32, q: u32| #[trigger] may_precede(d, p, q) <==> rule_upto(text, k + 1, p, q) by {
        if rule_upto(text, k + 1, p, q) {
            let m = choose|m: int| 0 <= m < k + 1 && rule_line(#[trigger] line_at(text, m))
                && u32_fields(line_at(text, m), rule_seps())->Some_0 == seq![p, q];
            assert(m != k);
            assert(rule_upto(text, k, p, q));
        }
        if rule_upto(text, k, p, q) {
            let m = choose|m: int| 0 <= m < k && rule_line(#[trigger] line_at(text, m))
                && u32_fields(line_at(text, m), rule_seps())->Some_0 == seq![p, q];
            assert(rule_upto(text, k + 1, p, q));
        }
    }
}

proof fn lemma_rule_line(text: Seq<u8>, k: int, d: Map<u32, Vec<u32>>, fv: Vec<u32>, x: u32, y: u32)
    requires
        0 <= k,
        rule_line(line_at(text, k)),
        u32_fields(line_at(text, k), rule_seps())->Some_0 == seq![x, y],
        fv@ == (if d.contains_key(x) { d[x]@ } else { Seq::<u32>::empty() }).push(y),
        forall|p: u32, q: u32| #[trigger] may_precede(d, p, q) <==> rule_upto(text, k, p, q),
    ensures
        forall|p: u32, q: u32| #[trigger] may_precede(d.insert(x, fv), p, q) <==> rule_upto(text, k + 1, p, q),
{
    let old_f = if d.contains_key(x) { d[x]@ } else { Seq::<u32>::empty() };
    assert forall|p: u32, q: u32| #[trigger] may_precede(d.insert(x, fv), p, q) <==> rule_upto(text, k + 1, p, q) by {
        if rule_upto(text, k + 1, p, q) && !rule_upto(text, k, p, q) {
            let m = choose|m: int| 0 <= m < k + 1 && rule_line(#[trigger] line_at(text, m))
                && u32_fields(line_at(text, m), rule_seps())->Some_0 == seq![p, q];
            assert(m == k);
            assert(seq![p, q][0] == p && seq![x, y][0] == x && seq![p, q][1] == q && seq![x, y][1] == y);
        }
        if rule_upto(text, k, p, q) {
            let m = choose|m: int| 0 <= m < k && rule_line(#[trigger] line_at(text, m))
                && u32_fields(line_at(text, m), rule_seps())->Some_0 == seq![p, q];
            assert(rule_upto(text, k + 1, p, q));
        }
        let d2 = d.insert(x, fv);
        assert(d2.contains_key(x) && d2[x] == fv);
        if p != x {
            assert(d2.contains_key(p) == d.contains_key(p));
            assert(d.contains_key(p) ==> d2[p] == d[p]);
            assert(may_precede(d2, p, q) == may_precede(d, p, q));
        }
        if p == x && q == y {
            assert(fv@[old_f.len() as int] == y);
            assert(fv@.contains(y));
            assert(rule_upto(text, k + 1, p, q));
        }
        if p == x && rule_upto(text, k, p, q) {
            assert(may_precede(d, p, q));
            assert(old_f == d[x]@);
            assert(old_f.contains(q));
        }
        if p == x {
            if old_f.contains(q) {
                let i = choose|i: int| 0 <= i < old_f.len() && old_f[i] == q;
                assert(fv@[i] == q);
            }
            if fv@.contains(q) && q != y {
                let i = choose|i: int| 0 <= i < fv@.len() && fv@[i] == q;
                assert(old_f[i] == q);
                assert(may_precede(d, p, q));
            }
        }
    }
}

fn read_u32_fields(line: &[u8], seps: &[u8]) -> (r: Option<Vec<u32>>)
    ensures
        r is Some <==> u32_fields(line@, seps@) is Some,
        r matches Some(v) ==> Some(v@) == u32_fields(line@, seps@),
{
    let v = match read_unsigned(line, seps) {
        Some(v) => v,
        None => return None,
    };
    let mut out: Vec<u32> = Vec::new();
    let mut k: usize = 0;
    while k < v.len()
        invariant
            Some(v@) == unsigned_fields(line@, seps@),
            k <= v.len(),
            out@.len() == k,
            forall|m: int| 0 <= m < k ==> #[trigger] v@[m] <= u32::MAX,
            forall|m: int| 0 <= m < k ==> #[trigger] out@[m] == v@[m] as u32,
        decreases v.len() - k,
    {
        if v[k] > u32::MAX as u64 {
            assert(v@[k as int] > u32::MAX);
            return None;
        }
        out.push(v[k] as u32);
        k += 1;
    }
    assert(out@ =~= v@.map_values(|x: u64| x as u32));
    Some(out)
}

fn has_byte(line: &[u8], b: u8) -> (r: bool)
    ensures
        r == line@.contains(b),
{
    let mut k: usize = 0;
    while k < line.len()
        invariant
            k <= line.len(),
            forall|m: int| 0 <= m < k ==> line@[m] != b,
        decreases line.len() - k,
    {
        if line[k] == b {
            assert(line@[k as int] == b);
            return true;
        }
        k += 1;
    }
    false
}

/// Which of the two lists of updates to sum.
#[derive(Clone, Copy, Debug, PartialEq, Eq, Structural)]
pub enum Type {
    Correct,
    Incorrect,
}

/// Ordering rules, updates, and the updates sorted into correct and
/// incorrect (reordered) ones with the sums of their middle pages.
pub struct Dataset {
    pub dict: HashMap<u32, Vec<u32>>,
    pub updates: Vec<Vec<u32>>,
    pub correct_updates: Vec<Vec<u32>>,
    pub incorrect_updates: Vec<Vec<u32>>,
    pub correct_mid_sum_up: u32,
    pub incorrect_mid_sum_up: u32,
}

fn copy_pages(v: &Vec<u32>) -> (r: Vec<u32>)
    ensures
        r@ == v@,
{
    let mut r: Vec<u32> = Vec::new();
    let mut i: usize = 0;
    while i < v.len()
        invariant
            i <= v.len(),
            r@ == v@.subrange(0, i as int),
        decreases v.len() - i,
    {
        r.push(v[i]);
        i += 1;
        assert(r@ =~= v@.subrange(0, i as int));
    }
    assert(r@ =~= v@);
    r
}

/// Whether page `x` may stand before page `y` under the rules.
fn precedes(dict: &HashMap<u32, Vec<u32>>, x: u32, y: u32) -> (r: bool)
    ensures
        r == may_precede(dict@, x, y),
{
    match dict.get(&x) {
        Some(after) => {
            assert(dict@.contains_key(x) && dict@[x] == *after);
            let mut k: usize = 0;
            while k < after.len()
                invariant
                    dict@.contains_key(x) && dict@[x] == *after,
                    k <= after.len(),
                    forall|m: int| 0 <= m < k ==> after@[m] != y,
                decreases after.len() - k,
            {
                if after[k] == y {
                    assert(after@[k as int] == y);
                    return true;
                }
                k += 1;
            }
            false
        },
        None => false,
    }
}

impl Dataset {
    /// Reads rules `a|b` and updates `a,b,c` from text, one per line;
    /// other lines are skipped. `None` where a rule or an update does not
    /// read as numbers of 32 bits.
    pub fn load_dataset(text: &[u8]) -> (r: Option<Dataset>)
        ensures
            r is Some <==> queue_text_ok(text@),
            r matches Some(d) ==> {
                &&& forall|x: u32, y: u32| #[trigger] may_precede(d.dict@, x, y) <==> rule_upto(text@, lines_of(text@).len() as int, x, y)
                &&& d.updates@.map_values(|v: Vec<u32>| v@) == updates_upto(text@, lines_of(text@).len() as int)
                &&& d.correct_updates@.len() == 0 && d.incorrect_updates@.len() == 0
                &&& d.correct_mid_sum_up == 0 && d.incorrect_mid_sum_up == 0
            },
    {
        let ghost ls = lines_of(text@);
        let nl: [u8; 1] = [10u8];
        assert(nl@ =~= seq![10u8]);
        let lines = fields(text, nl.as_slice());
        let rs: [u8; 4] = [124u8, 32u8, 9u8, 13u8];
        assert(rs@ =~= rule_seps());
        let us: [u8; 4] = [44u8, 32u8, 9u8, 13u8];
        assert(us@ =~= update_seps());
        let mut dict: HashMap<u32, Vec<u32>> = HashMap::new();
        let mut updates: Vec<Vec<u32>> = Vec::new();
        let mut k: usize = 0;
        while k < lines.len()
            invariant
                ls == lines_of(text@),
                rs@ == rule_seps() && us@ == update_seps(),
                lines@.len() == ls.len(),
                forall|m: int| 0 <= m < lines@.len() ==> (#[trigger] lines@[m]).0 == ls[m].0 && lines@[m].1 == ls[m].1
                    && lines@[m].0 <= lines@[m].1 <= text@.len(),
                k <= lines.len(),
                forall|m: int| 0 <= m < k ==> {
                    &&& (#[trigger] line_at(text@, m)).contains(124u8) ==> rule_line(line_at(text@, m))
                    &&& update_line(line_at(text@, m)) ==> u32_fields(line_at(text@, m), update_seps()) is Some
                },
                forall|x: u32, y: u32| #[trigger] may_precede(dict@, x, y) <==> rule_upto(text@, k as int, x, y),
                updates@.map_values(|v: Vec<u32>| v@) == updates_upto(text@, k as int),
            decreases lines.len() - k,
        {
            let (a, b) = lines[k];
            let line = &text[a..b];
            assert(line@ =~= line_at(text@, k as int));
            let ghost before = dict@;
            let ghost ups = updates@;
            if has_byte(line, 124u8) {
                let v = match read_u32_fields(line, rs.as_slice()) {
                    Some(v) => v,
                    None => return None,
                };
                if v.len() != 2 {
                    return None;
                }
                let (x, y) = (v[0], v[1]);
                assert(v@ =~= seq![x, y]);
                let mut followers: Vec<u32> = match dict.get(&x) {
                    Some(f) => copy_pages(f),
                    None => Vec::new(),
                };
                assert(followers@ == (if before.contains_key(x) { before[x]@ } else { Seq::<u32>::empty() }));
                followers.push(y);
                let ghost fv = followers;
                dict.insert(x, followers);
                proof {
                    assert(dict@ == before.insert(x, fv));
                    assert(u32_fields(line_at(text@, k as int), rule_seps())->Some_0 == seq![x, y]);
                    lemma_rule_line(text@, k as int, before, fv, x, y);
                    assert(updates_upto(text@, k + 1) == updates_upto(text@, k as int));
                }
            } else if has_byte(line, 44u8) {
                let v = match read_u32_fields(line, us.as_slice()) {
                    Some(v) => v,
                    None => return None,
                };
                updates.push(v);
                proof {
                    assert(updates@.map_values(|v: Vec<u32>| v@) =~= updates_upto(text@, k + 1));
                    assert(!rule_line(line_at(text@, k as int)));
                    lemma_no_rule_line(text@, k as int, dict@);
                }
            } else {
                proof {
                    assert(updates_upto(text@, k + 1) == updates_upto(text@, k as int));
                    assert(!rule_line(line_at(text@, k as int)));
                    lemma_no_rule_line(text@, k as int, dict@);
                }
            }
            k += 1;
        }
        Some(Dataset {
            dict,
            updates,
            correct_updates: Vec::new(),
            incorrect_updates: Vec::new(),
            correct_mid_sum_up: 0,
            incorrect_mid_sum_up: 0,
        })
    }

    /// Reorders every update in place and files a copy of it under the
    /// correct or the incorrect updates.
    pub fn filter_correct_updates(&mut self)
        ensures
            final(self).updates@.len() == old(self).updates@.len(),
            forall|k: int| 0 <= k < final(self).updates@.len() ==>
                (#[trigger] final(self).updates@[k])@ == reorder(old(self).dict@, old(self).updates@[k]@).0,
            final(self).correct_updates@.map_values(|v: Vec<u32>| v@)
                == old(self).correct_updates@.map_values(|v: Vec<u32>| v@)
                + sorted_out(old(self).dict@, old(self).updates@, old(self).updates@.len() as int, true),
            final(self).incorrect_updates@.map_values(|v: Vec<u32>| v@)
                == old(self).incorrect_updates@.map_values(|v: Vec<u32>| v@)
                + sorted_out(old(self).dict@, old(self).updates@, old(self).updates@.len() as int, false),
            final(self).dict@ == old(self).dict@,
            final(self).correct_mid_sum_up == old(self).correct_mid_sum_up,
            final(self).incorrect_mid_sum_up == old(self).incorrect_mid_sum_up,
    {
        let ghost d = self.dict@;
        let ghost us = self.updates@;
        let ghost good0 = self.correct_updates@.map_values(|v: Vec<u32>| v@);
        let ghost bad0 = self.incorrect_updates@.map_values(|v: Vec<u32>| v@);
        let mut k: usize = 0;
        while k < self.updates.len()
            invariant
                d == self.dict@,
                self.updates@.len() == us.len(),
                k <= us.len(),
                forall|m: int| k <= m < us.len() ==> #[trigger] self.updates@[m] == us[m],
                forall|m: int| 0 <= m < k ==> (#[trigger] self.updates@[m])@ == reorder(d, us[m]@).0,
                self.correct_updates@.map_values(|v: Vec<u32>| v@) == good0 + sorted_out(d, us, k as int, true),
                self.incorrect_updates@.map_values(|v: Vec<u32>| v@) == bad0 + sorted_out(d, us, k as int, false),
                self.correct_mid_sum_up == old(self).correct_mid_sum_up,
                self.incorrect_mid_sum_up == old(self).incorrect_mid_sum_up,
            decreases us.len() - k,
        {
            let mut u = copy_pages(&self.updates[k]);
            let ghost u0 = u@;
            let mut correct = true;
            let n = u.len();
            let mut i: usize = 0;
            while n > 0 && i < n - 1
                invariant
                    d == self.dict@,
                    n == u@.len(),
                    i <= n,
                    reorder(d, u0) == (passes_from(d, u@, i as int).0, correct && passes_from(d, u@, i as int).1),
                decreases n - i,
            {
                let ghost ui = u@;
                let mut ok_i = true;
                let mut j: usize = i + 1;
                while j < n
                    invariant
                        d == self.dict@,
                        n == u@.len(),
                        i + 1 < n,
                        i < j <= n,
                        pass_from(d, ui, i as int, i + 1) == (pass_from(d, u@, i as int, j as int).0,
                            ok_i && pass_from(d, u@, i as int, j as int).1),
                    decreases n - j,
                {
                    let a = u[i];
                    let b = u[j];
                    let ok = precedes(&self.dict, a, b);
                    if !ok {
                        u.set(i, b);
                        u.set(j, a);
                        ok_i = false;
                    }
                    j += 1;
                }
                assert(pass_from(d, u@, i as int, j as int) == (u@, true));
                correct = correct && ok_i;
                i += 1;
            }
            assert(passes_from(d, u@, i as int) == (u@, true));
            let ghost out = u@;
            assert(reorder(d, us[k as int]@) == (out, correct));
            let kept = copy_pages(&u);
            let ghost good_before = self.correct_updates@;
            let ghost bad_before = self.incorrect_updates@;
            if correct {
                self.correct_updates.push(kept);
                assert(self.correct_updates@ == good_before.push(kept));
                assert(self.correct_updates@.map_values(|v: Vec<u32>| v@) =~= good_before.map_values(|v: Vec<u32>| v@).push(out));
                assert(sorted_out(d, us, k + 1, true) == sorted_out(d, us, k as int, true).push(out));
                assert(self.correct_updates@.map_values(|v: Vec<u32>| v@) =~= good0 + sorted_out(d, us, k + 1, true));
                assert(sorted_out(d, us, k + 1, false) == sorted_out(d, us, k as int, false));
            } else {
                self.incorrect_updates.push(kept);
                assert(self.incorrect_updates@ == bad_before.push(kept));
                assert(self.incorrect_updates@.map_values(|v: Vec<u32>| v@) =~= bad_before.map_values(|v: Vec<u32>| v@).push(out));
                assert(sorted_out(d, us, k + 1, false) == sorted_out(d, us, k as int, false).push(out));
                assert(self.incorrect_updates@.map_values(|v: Vec<u32>| v@) =~= bad0 + sorted_out(d, us, k + 1, false));
                assert(sorted_out(d, us, k + 1, true) == sorted_out(d, us, k as int, true));
            }
            self.updates.set(k, u);
            k += 1;
        }
    }

    /// Adds the middle pages of the correct or of the incorrect updates to
    /// the matching sum and returns the new sum; `None`, with both sums left
    /// as they were, where it does not fit in 32 bits.
    pub fn cal_mid_sum_up(&mut self, cal_type: Type) -> (r: Option<u32>)
        ensures
            ({
                let list = if cal_type == Type::Correct { old(self).correct_updates@ } else { old(self).incorrect_updates@ };
                let base = if cal_type == Type::Correct { old(self).correct_mid_sum_up } else { old(self).incorrect_mid_sum_up };
                let total = base + middles_upto(list, list.len() as int);
                &&& r is Some <==> total <= u32::MAX
                &&& r matches Some(v) ==> v == total
            }),
            cal_type == Type::Correct && r is Some ==> Some(final(self).correct_mid_sum_up) == r
                && final(self).incorrect_mid_sum_up == old(self).incorrect_mid_sum_up,
            cal_type == Type::Incorrect && r is Some ==> Some(final(self).incorrect_mid_sum_up) == r
                && final(self).correct_mid_sum_up == old(self).correct_mid_sum_up,
            r is None ==> final(self).correct_mid_sum_up == old(self).correct_mid_sum_up
                && final(self).incorrect_mid_sum_up == old(self).incorrect_mid_sum_up,
            final(self).dict@ == old(self).dict@,
            final(self).updates@ == old(self).updates@,
            final(self).correct_updates@ == old(self).correct_updates@,
            final(self).incorrect_updates@ == old(self).incorrect_updates@,
    {
        let updates = match cal_type {
            Type::Correct => &self.correct_updates,
            Type::Incorrect => &self.incorrect_updates,
        };
        let mut sum: u32 = match cal_type {
            Type::Correct => self.correct_mid_sum_up,
            Type::Incorrect => self.incorrect_mid_sum_up,
        };
        let ghost base = sum;
        let mut k: usize = 0;
        while k < updates.len()
            invariant
                k <= updates.len(),
                sum == base + middles_upto(updates@, k as int),
                updates@ == if cal_type == Type::Correct { old(self).correct_updates@ } else { old(self).incorrect_updates@ },
                base == if cal_type == Type::Correct { old(self).correct_mid_sum_up } else { old(self).incorrect_mid_sum_up },
            decreases updates.len() - k,
        {
            proof {
                lemma_middles_monotone(updates@, k + 1, updates@.len() as int);
            }
            let u = &updates[k];
            let m: u32 = if u.len() == 0 {
                0
            } else {
                u[u.len() / 2]
            };
            assert(m as int == middle(updates@[k as int]@));
            match sum.checked_add(m) {
                Some(v) => {
                    sum = v;
                },
                None => {
                    return None;
                },
            }
            k += 1;
        }
        match cal_type {
            Type::Correct => {
                self.correct_mid_sum_up = sum;
            },
            Type::Incorrect => {
                self.incorrect_mid_sum_up = sum;
            },
        }
        Some(sum)
    }
}

} // verus!
